//! The git-tracked `.ire/experiments/<NNN>-<slug>/` folder created when an
//! experiment starts. `EXPERIMENT.md` inside it is the durable, human-readable
//! record of what ran and why. The folder is also the home for the experiment's
//! own artifacts; raw logs stay in `.ire/cache/experiments/<uuid>/`.

use vstd::prelude::*;
use crate::text::{chars_of, padded_decimal, parse_u32, string_of, trim};
use crate::text::{digits, trimmed, u32_in, zero_padded};

verus! {

/// Whether `c` is an ASCII letter or digit.
pub open spec fn is_alnum(c: char) -> bool {
    '0' <= c <= '9' || 'A' <= c <= 'Z' || 'a' <= c <= 'z'
}

/// `c`, an upper-case ASCII letter turned to lower case.
pub open spec fn lowered(c: char) -> char {
    if 'A' <= c <= 'Z' {
        (c as u32 + 32) as char
    } else {
        c
    }
}

/// Whether `c` can stand in a word of a slug.
pub open spec fn is_slug_char(c: char) -> bool {
    '0' <= c <= '9' || 'a' <= c <= 'z'
}

/// The maximal runs of ASCII letters and digits in `s`, in lower case.
pub open spec fn words(s: Seq<char>) -> Seq<Seq<char>>
    decreases s.len(),
{
    if s.len() == 0 {
        Seq::empty()
    } else {
        let before = words(s.drop_last());
        let c = s.last();
        if !is_alnum(c) {
            before
        } else if s.len() >= 2 && is_alnum(s[s.len() - 2]) {
            before.drop_last().push(before.last().push(lowered(c)))
        } else {
            before.push(seq![lowered(c)])
        }
    }
}

/// The words of `ws`, with one dash between neighbours.
pub open spec fn dashed(ws: Seq<Seq<char>>) -> Seq<char>
    decreases ws.len(),
{
    if ws.len() == 0 {
        Seq::empty()
    } else if ws.len() == 1 {
        ws[0]
    } else {
        dashed(ws.drop_last()).push('-') + ws.last()
    }
}

/// `s` without the dashes at its end.
pub open spec fn undashed_end(s: Seq<char>) -> Seq<char>
    decreases s.len(),
{
    if s.len() > 0 && s.last() == '-' {
        undashed_end(s.drop_last())
    } else {
        s
    }
}

/// The first `n` characters of `s`, or all of it.
pub open spec fn first(s: Seq<char>, n: nat) -> Seq<char> {
    if s.len() > n {
        s.take(n as int)
    } else {
        s
    }
}

/// The slug of a title: its words joined by dashes, cut to 60 characters and
/// never ending in a dash. A title without words has the slug `experiment`.
pub open spec fn slug(title: Seq<char>) -> Seq<char> {
    let cut = undashed_end(first(dashed(words(title)), 60));
    if cut.len() == 0 {
        "experiment"@
    } else {
        cut
    }
}

/// The dash that stands after the words of `s` while the next word is awaited:
/// there is one once a word has ended.
pub open spec fn dash_after(s: Seq<char>) -> Seq<char> {
    if s.len() > 0 && !is_alnum(s.last()) && words(s).len() > 0 {
        seq!['-']
    } else {
        Seq::empty()
    }
}

/// Words are made of lower-case letters and digits, and none is empty.
pub(crate) proof fn lemma_words(s: Seq<char>)
    ensures
        forall|i: int| 0 <= i < words(s).len() ==> (#[trigger] words(s)[i]).len() > 0,
        forall|i: int, j: int|
            0 <= i < words(s).len() && 0 <= j < words(s)[i].len() ==> is_slug_char(
                #[trigger] words(s)[i][j],
            ),
        s.len() > 0 && is_alnum(s.last()) ==> words(s).len() > 0,
    decreases s.len(),
{
    if s.len() > 0 {
        lemma_words(s.drop_last());
        let before = words(s.drop_last());
        let c = s.last();
        if is_alnum(c) {
            assert(is_slug_char(lowered(c)));
            if s.len() >= 2 {
                assert(s.drop_last().last() == s[s.len() - 2]);
            }
            assert forall|i: int| 0 <= i < words(s).len() implies (#[trigger] words(s)[i]).len()
                > 0 by {
                if i < before.len() {
                    assert(before[i].len() > 0);
                }
            }
            assert forall|i: int, j: int|
                0 <= i < words(s).len() && 0 <= j < words(s)[i].len() implies is_slug_char(
                #[trigger] words(s)[i][j],
            ) by {
                if i < before.len() && j < before[i].len() {
                    assert(is_slug_char(before[i][j]));
                }
            }
        }
    }
}

/// `c`, an upper-case ASCII letter turned to lower case.
fn lower(c: char) -> (r: char)
    ensures
        r == lowered(c),
{
    if 'A' <= c && c <= 'Z' {
        (c as u8 + 32) as char
    } else {
        c
    }
}

/// Joined words start and end with a letter or digit.
proof fn lemma_dashed_ends(ws: Seq<Seq<char>>)
    requires
        forall|i: int| 0 <= i < ws.len() ==> (#[trigger] ws[i]).len() > 0,
        forall|i: int, j: int|
            0 <= i < ws.len() && 0 <= j < ws[i].len() ==> is_slug_char(#[trigger] ws[i][j]),
    ensures
        ws.len() > 0 <==> dashed(ws).len() > 0,
        ws.len() > 0 ==> is_slug_char(dashed(ws).last()) && is_slug_char(dashed(ws)[0]),
    decreases ws.len(),
{
    if ws.len() > 1 {
        lemma_dashed_ends(ws.drop_last());
        assert(is_slug_char(ws.last()[ws.last().len() - 1]));
    } else if ws.len() == 1 {
        assert(is_slug_char(ws[0][0]));
        assert(is_slug_char(ws[0][ws[0].len() - 1]));
    }
}

/// What one more character does to the joined words and to the dash owed.
pub(crate) proof fn lemma_dashed_step(s: Seq<char>)
    requires
        s.len() > 0,
    ensures
        ({
            let before = s.drop_last();
            let out = dashed(words(before)) + dash_after(before);
            let c = s.last();
            dashed(words(s)) + dash_after(s) == if is_alnum(c) {
                out.push(lowered(c))
            } else if out.len() > 0 && out.last() != '-' {
                out.push('-')
            } else {
                out
            }
        }),
{
    let before = s.drop_last();
    let ws = words(before);
    let c = s.last();
    lemma_words(before);
    lemma_dashed_ends(ws);
    lemma_words(s);
    let out = dashed(ws) + dash_after(before);
    if is_alnum(c) {
        assert(dash_after(s) =~= Seq::empty());
        if s.len() >= 2 && is_alnum(s[s.len() - 2]) {
            assert(before.last() == s[s.len() - 2]);
            assert(dash_after(before) =~= Seq::empty());
            let longer = ws.drop_last().push(ws.last().push(lowered(c)));
            assert(longer.drop_last() =~= ws.drop_last());
            if ws.len() > 1 {
                assert(dashed(longer) =~= dashed(ws).push(lowered(c)));
            } else {
                assert(dashed(longer) =~= dashed(ws).push(lowered(c)));
            }
            assert(dashed(words(s)) + dash_after(s) =~= out.push(lowered(c)));
        } else {
            assert(before.len() > 0 ==> before.last() == s[s.len() - 2]);
            let longer = ws.push(seq![lowered(c)]);
            assert(longer.drop_last() =~= ws);
            if ws.len() == 0 {
                assert(out =~= Seq::empty());
                assert(dashed(longer) =~= seq![lowered(c)]);
            } else {
                if before.len() == 0 {
                    assert(words(before).len() == 0);
                }
                assert(dash_after(before) =~= seq!['-']);
                assert(out =~= dashed(ws).push('-'));
            }
            assert(dashed(words(s)) + dash_after(s) =~= out.push(lowered(c)));
        }
    } else {
        if ws.len() == 0 {
            assert(out =~= Seq::empty());
            assert(dash_after(s) =~= Seq::empty());
        } else {
            assert(before.len() > 0);
            if is_alnum(before.last()) {
                assert(out =~= dashed(ws));
                assert(dashed(words(s)) + dash_after(s) =~= out.push('-'));
            } else {
                assert(out.last() == '-');
                assert(dash_after(s) == dash_after(before));
            }
        }
    }
}

/// Filesystem-safe title slug: ASCII alphanumerics lowercased, every other run
/// of characters collapsed to a single `-`.
pub fn slugify(name: &str) -> (s: String)
    ensures
        s@ == slug(name@),
{
    let chars = chars_of(name);
    let mut out: Vec<char> = Vec::new();
    let mut i: usize = 0;
    assert(out@ =~= dashed(words(chars@.take(0))) + dash_after(chars@.take(0)));
    while i < chars.len()
        invariant
            i <= chars@.len(),
            out@ == dashed(words(chars@.take(i as int))) + dash_after(chars@.take(i as int)),
        decreases chars.len() - i,
    {
        let c = chars[i];
        proof {
            lemma_dashed_step(chars@.take(i + 1));
            assert(chars@.take(i + 1).drop_last() =~= chars@.take(i as int));
        }
        if ('0' <= c && c <= '9') || ('A' <= c && c <= 'Z') || ('a' <= c && c <= 'z') {
            out.push(lower(c));
        } else if out.len() > 0 && out[out.len() - 1] != '-' {
            out.push('-');
        }
        i = i + 1;
    }
    proof {
        assert(chars@.take(chars@.len() as int) =~= name@);
        lemma_words(name@);
        lemma_dashed_ends(words(name@));
    }
    let ghost joined = dashed(words(name@));
    if out.len() > 0 && out[out.len() - 1] == '-' {
        out.pop();
    }
    assert(out@ =~= joined);
    if out.len() > 60 {
        out.truncate(60);
    }
    assert(out@ =~= first(joined, 60));
    while out.len() > 0 && out[out.len() - 1] == '-'
        invariant
            undashed_end(out@) == undashed_end(first(joined, 60)),
        decreases out@.len(),
    {
        out.pop();
    }
    if out.len() == 0 {
        "experiment".to_string()
    } else {
        string_of(&out)
    }
}

/// Whether `n` backticks stand side by side somewhere in `s`.
pub open spec fn has_run(s: Seq<char>, n: nat) -> bool {
    exists|i: int| #[trigger] run_at(s, i, n)
}

/// Whether `n` backticks stand in `s` from position `i` on.
pub open spec fn run_at(s: Seq<char>, i: int, n: nat) -> bool {
    &&& 0 <= i
    &&& i + n <= s.len()
    &&& forall|j: int| i <= j < i + n ==> s[j] == '`'
}

/// The length of the longest run of backticks in `s`.
pub open spec fn longest_run(s: Seq<char>) -> nat {
    choose|n: nat| #[trigger] has_run(s, n) && !has_run(s, n + 1)
}

/// The fence for `command`: three backticks, or one more than any run in it.
pub open spec fn fence(command: Seq<char>) -> Seq<char> {
    let longest = longest_run(command);
    let n: nat = if longest > 2 {
        longest + 1
    } else {
        3
    };
    Seq::new(n, |i: int| '`')
}

/// A run holds every shorter run.
pub proof fn lemma_run_shorter(s: Seq<char>, n: nat, m: nat)
    requires
        has_run(s, n),
        m <= n,
    ensures
        has_run(s, m),
{
    let i = choose|i: int| #[trigger] run_at(s, i, n);
    assert(run_at(s, i, m));
}

/// A length that is reached and not exceeded is the longest.
proof fn lemma_longest_run(s: Seq<char>, n: nat)
    requires
        has_run(s, n),
        !has_run(s, n + 1),
    ensures
        longest_run(s) == n,
{
    let m = longest_run(s);
    assert(has_run(s, m) && !has_run(s, m + 1));
    if m < n {
        lemma_run_shorter(s, n, m + 1);
    } else if n < m {
        lemma_run_shorter(s, m, n + 1);
    }
}

/// Reading one more character: a run that is longer than both the longest run
/// so far and the run that now ends the text does not exist.
proof fn lemma_run_bound(s: Seq<char>, i: int, run: nat, longest: nat)
    requires
        0 <= i < s.len(),
        !has_run(s.take(i), longest + 1),
        run <= longest,
        run <= i + 1,
        run == i + 1 || s[i - run] != '`',
    ensures
        !has_run(s.take(i + 1), longest + 1),
{
    if has_run(s.take(i + 1), longest + 1) {
        let k = choose|k: int| #[trigger] run_at(s.take(i + 1), k, longest + 1);
        if k + longest + 1 <= i {
            assert forall|j: int| k <= j < k + longest + 1 implies s.take(i)[j] == '`' by {
                assert(s.take(i + 1)[j] == '`');
            }
            assert(run_at(s.take(i), k, longest + 1));
        } else {
            assert(k <= i - run);
            assert(s.take(i + 1)[i - run] == '`');
        }
    }
}

/// A fence long enough that a command containing backticks can't break out.
pub fn fence_for(command: &str) -> (f: String)
    ensures
        f@ == fence(command@),
{
    let chars = chars_of(command);
    let mut longest: usize = 0;
    let mut run: usize = 0;
    let mut i: usize = 0;
    assert(run_at(chars@.take(0), 0, 0));
    while i < chars.len()
        invariant
            i <= chars@.len(),
            run <= longest <= i,
            run_at(chars@, i - run, run as nat),
            run == i || chars@[i - run - 1] != '`',
            has_run(chars@.take(i as int), longest as nat),
            !has_run(chars@.take(i as int), (longest + 1) as nat),
        decreases chars.len() - i,
    {
        let ghost before = chars@.take(i as int);
        let ghost after = chars@.take(i + 1);
        proof {
            let k = choose|k: int| #[trigger] run_at(before, k, longest as nat);
            assert forall|j: int| k <= j < k + longest implies after[j] == '`' by {
                assert(before[j] == '`');
            }
            assert(run_at(after, k, longest as nat));
        }
        if chars[i] == '`' {
            run = run + 1;
            assert(run_at(after, i + 1 - run, run as nat)) by {
                assert forall|j: int| i + 1 - run <= j < i + 1 implies after[j] == '`' by {
                    assert(chars@[j] == '`');
                }
            }
            let ghost old_longest = longest;
            if longest < run {
                longest = run;
                proof {
                    if has_run(before, (longest + 1) as nat) {
                        lemma_run_shorter(before, (longest + 1) as nat, (old_longest + 1) as nat);
                    }
                }
            }
        } else {
            run = 0;
        }
        proof {
            lemma_run_bound(chars@, i as int, run as nat, longest as nat);
        }
        i = i + 1;
    }
    proof {
        assert(chars@.take(chars@.len() as int) =~= command@);
        lemma_longest_run(command@, longest as nat);
    }
    let inside: usize = if longest > 2 {
        longest
    } else {
        2
    };
    let mut f = String::new();
    let mut k: usize = 0;
    while k < inside
        invariant
            k <= inside,
            f@ =~= Seq::new(k as nat, |i: int| '`'),
        decreases inside - k,
    {
        f.push('`');
        k = k + 1;
    }
    f.push('`');
    assert(f@ =~= fence(command@));
    f
}

/// What goes into the record of an experiment.
pub struct RecordArgs<'a> {
    pub uuid: &'a str,
    pub name: &'a str,
    pub command: &'a str,
    pub working_dir: &'a str,
    pub wake_prompt: &'a str,
    pub started_at: &'a str,
}

/// The text of the record before the opening fence of the command.
pub open spec fn record_head(args: RecordArgs) -> Seq<char> {
    "# "@ + trimmed(args.name@) + "\n\n- **uuid**: `"@ + args.uuid@ + "`\n- **started**: "@
        + args.started_at@ + "\n- **working dir**: `"@ + args.working_dir@
        + "`\n\n## Goal & context\n\n"@ + trimmed(args.wake_prompt@) + "\n\n## Command\n\n"@
}

/// The text of the record after the closing fence of the command.
pub open spec fn record_tail(args: RecordArgs) -> Seq<char> {
    "\n\n---\n\nArtifacts belonging to this experiment — scripts, result files, notes — go in\nthis folder. Raw stdout/stderr stay in `.ire/cache/experiments/"@
        + args.uuid@ + "/`.\n"@
}

/// The whole text of the record.
pub open spec fn record_text(args: RecordArgs) -> Seq<char> {
    record_head(args) + fence(args.command@) + "sh\n"@ + args.command@ + "\n"@ + fence(
        args.command@,
    ) + record_tail(args)
}

/// The text of `EXPERIMENT.md`: who ran, when, where, why, and the command in a
/// fence that it cannot close.
pub fn render(args: &RecordArgs<'_>) -> (text: String)
    ensures
        text@ == record_text(*args),
{
    let fence = fence_for(args.command);
    let name = trim(args.name);
    let goal = trim(args.wake_prompt);
    let mut text = String::new();
    text.append("# ");
    text.append(name.as_str());
    text.append("\n\n- **uuid**: `");
    text.append(args.uuid);
    text.append("`\n- **started**: ");
    text.append(args.started_at);
    text.append("\n- **working dir**: `");
    text.append(args.working_dir);
    text.append("`\n\n## Goal & context\n\n");
    text.append(goal.as_str());
    text.append("\n\n## Command\n\n");
    assert(text@ =~= record_head(*args));
    text.append(fence.as_str());
    text.append("sh\n");
    text.append(args.command);
    text.append("\n");
    text.append(fence.as_str());
    let ghost fenced = text@;
    text.append(
        "\n\n---\n\nArtifacts belonging to this experiment — scripts, result files, notes — go in\nthis folder. Raw stdout/stderr stay in `.ire/cache/experiments/",
    );
    text.append(args.uuid);
    text.append("/`.\n");
    assert(text@ =~= fenced + record_tail(*args));
    text
}

/// One entry of `.ire/experiments/`.
pub struct FolderEntry {
    /// The entry's name, or `None` where it is not valid Unicode.
    pub name: Option<String>,
    /// Whether the entry is known to be a directory.
    pub is_dir: bool,
}

/// What a [`FolderEntry`] stands for.
pub struct EntryView {
    pub name: Option<Seq<char>>,
    pub is_dir: bool,
}

impl View for FolderEntry {
    type V = EntryView;

    open spec fn view(&self) -> EntryView {
        EntryView {
            name: match self.name {
                Some(name) => Some(name@),
                None => None,
            },
            is_dir: self.is_dir,
        }
    }
}

/// What a list of entries stands for.
pub open spec fn entry_views(entries: Seq<FolderEntry>) -> Seq<EntryView> {
    entries.map_values(|e: FolderEntry| e@)
}

/// Whether the first dash of `s` stands at `i`.
pub open spec fn is_first_dash(s: Seq<char>, i: int) -> bool {
    &&& 0 <= i < s.len()
    &&& s[i] == '-'
    &&& forall|j: int| 0 <= j < i ==> s[j] != '-'
}

/// The number that a folder name carries before its first dash.
pub open spec fn name_number(name: Seq<char>) -> Option<u32> {
    if exists|i: int| is_first_dash(name, i) {
        u32_in(name.take(choose|i: int| is_first_dash(name, i)))
    } else {
        None
    }
}

/// The number that an entry holds: only directories hold one.
pub open spec fn entry_number(entry: EntryView) -> Option<u32> {
    if entry.is_dir && entry.name is Some {
        name_number(entry.name->0)
    } else {
        None
    }
}

/// The highest number among the entries.
pub open spec fn highest(entries: Seq<EntryView>) -> Option<u32>
    decreases entries.len(),
{
    if entries.len() == 0 {
        None
    } else {
        match (highest(entries.drop_last()), entry_number(entries.last())) {
            (Some(a), Some(b)) => Some(
                if a < b {
                    b
                } else {
                    a
                },
            ),
            (None, b) => b,
            (a, None) => a,
        }
    }
}

/// The number of the next experiment: one past the highest, from one on.
pub open spec fn next_number(listing: Option<Seq<EntryView>>) -> nat {
    match listing {
        Some(entries) => match highest(entries) {
            Some(n) => n as nat + 1,
            None => 1,
        },
        None => 1,
    }
}

/// What a listing stands for.
pub open spec fn listing_view(listing: Option<Vec<FolderEntry>>) -> Option<Seq<EntryView>> {
    match listing {
        Some(entries) => Some(entry_views(entries@)),
        None => None,
    }
}

/// The number before the first dash of a folder name.
pub fn number_of(name: &str) -> (n: Option<u32>)
    ensures
        n == name_number(name@),
{
    let chars = chars_of(name);
    let mut i: usize = 0;
    while i < chars.len()
        invariant
            chars@ == name@,
            i <= chars@.len(),
            forall|j: int| 0 <= j < i ==> chars@[j] != '-',
        decreases chars.len() - i,
    {
        if chars[i] == '-' {
            assert(is_first_dash(name@, i as int));
            let ghost k = choose|k: int| is_first_dash(name@, k);
            assert(k == i);
            return parse_u32(&chars, i);
        }
        i = i + 1;
    }
    None
}

/// The highest `NNN-` prefix among the directories listed.
pub fn highest_prefix(entries: &Vec<FolderEntry>) -> (n: Option<u32>)
    ensures
        n == highest(entry_views(entries@)),
{
    let ghost views = entry_views(entries@);
    let mut best: Option<u32> = None;
    let mut i: usize = 0;
    while i < entries.len()
        invariant
            i <= entries@.len(),
            views == entry_views(entries@),
            best == highest(views.take(i as int)),
        decreases entries.len() - i,
    {
        let entry = &entries[i];
        let n: Option<u32> = if entry.is_dir {
            match &entry.name {
                Some(name) => number_of(name.as_str()),
                None => None,
            }
        } else {
            None
        };
        assert(n == entry_number(views[i as int]));
        assert(views.take(i + 1).drop_last() =~= views.take(i as int));
        best = match (best, n) {
            (Some(a), Some(b)) => Some(
                if a < b {
                    b
                } else {
                    a
                },
            ),
            (None, b) => b,
            (a, None) => a,
        };
        i = i + 1;
    }
    assert(views.take(views.len() as int) =~= views);
    best
}

/// One past the highest `NNN-` prefix present. Gaps are left alone: numbering
/// only moves forward. A folder that cannot be listed counts as empty.
pub fn next_prefix(listing: &Option<Vec<FolderEntry>>) -> (n: u32)
    requires
        next_number(listing_view(*listing)) <= u32::MAX,
    ensures
        n == next_number(listing_view(*listing)),
{
    match listing {
        Some(entries) => match highest_prefix(entries) {
            Some(n) => n + 1,
            None => 1,
        },
        None => 1,
    }
}

/// The folder name of experiment `n` with the given title.
pub open spec fn folder_name(n: nat, title: Seq<char>) -> Seq<char> {
    zero_padded(digits(n), 3) + "-"@ + slug(title)
}

/// A record about to be written.
pub struct NewRecord {
    /// The folder's name inside `.ire/experiments/`.
    pub name: String,
    /// The folder's path from the workspace root.
    pub dir: String,
    /// The path of its `EXPERIMENT.md` from the workspace root.
    pub file: String,
    /// The text of that file.
    pub text: String,
}

/// Lay out `.ire/experiments/<NNN>-<slug>/EXPERIMENT.md` for a new experiment,
/// given what `.ire/experiments/` holds so far.
pub fn create(listing: &Option<Vec<FolderEntry>>, args: RecordArgs<'_>) -> (record: NewRecord)
    requires
        next_number(listing_view(*listing)) <= u32::MAX,
    ensures
        record.name@ == folder_name(next_number(listing_view(*listing)), args.name@),
        record.dir@ == ".ire/experiments/"@ + record.name@,
        record.file@ == record.dir@ + "/EXPERIMENT.md"@,
        record.text@ == record_text(args),
{
    let mut name = padded_decimal(next_prefix(listing), 3);
    name.append("-");
    name.append(slugify(args.name).as_str());
    let mut dir = ".ire/experiments/".to_string();
    dir.append(name.as_str());
    let mut file = dir.clone();
    file.append("/EXPERIMENT.md");
    let text = render(&args);
    NewRecord { name, dir, file, text }
}

} // verus!
