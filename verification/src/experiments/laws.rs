//! What holds of experiment records as a whole: numbering, slugs and fences.

use vstd::prelude::*;
use crate::text::{
    digits, is_digit, is_row_of_digits, law_digits_are_read, law_only_digits_are_read,
    law_padded_decimal, lemma_padded_decimal_reads_back, trimmed, written, zero_padded,
};
use crate::experiments::record::{
    dash_after, dashed, entry_number, entry_views, fence, first, folder_name, has_run, highest, is_alnum,
    is_first_dash, is_slug_char, lemma_dashed_step, lemma_run_shorter, lemma_words, longest_run,
    listing_view, lowered, name_number, next_number, record_head, record_tail, record_text, run_at, slug,
    undashed_end, words, EntryView, FolderEntry, RecordArgs,
};

verus! {

/// The highest number is held by one of the entries, and no entry holds a higher
/// one; where no entry holds a number there is none.
pub proof fn law_highest_is_a_maximum(entries: Seq<EntryView>)
    ensures
        forall|i: int|
            #![trigger entries[i]]
            0 <= i < entries.len() && entry_number(entries[i]) is Some ==> highest(entries) is Some
                && entry_number(entries[i])->0 <= highest(entries)->0,
        highest(entries) is Some ==> exists|i: int|
            0 <= i < entries.len() && #[trigger] entry_number(entries[i]) == highest(entries),
    decreases entries.len(),
{
    if entries.len() > 0 {
        let before = entries.drop_last();
        law_highest_is_a_maximum(before);
        let last = entries.len() - 1;
        assert forall|i: int|
            #![trigger entries[i]]
            0 <= i < entries.len() && entry_number(entries[i]) is Some implies highest(
            entries,
        ) is Some && entry_number(entries[i])->0 <= highest(entries)->0 by {
            if i < last {
                assert(before[i] == entries[i]);
            }
        }
        if highest(entries) is Some {
            if highest(entries) == entry_number(entries.last()) {
                assert(entry_number(entries[last]) == highest(entries));
            } else {
                let i = choose|i: int|
                    0 <= i < before.len() && #[trigger] entry_number(before[i]) == highest(before);
                assert(entry_number(entries[i]) == highest(entries));
            }
        }
    }
}

/// The next number is above every number that a listed folder holds.
pub proof fn law_next_number_is_fresh(entries: Seq<EntryView>, i: int)
    requires
        0 <= i < entries.len(),
        entry_number(entries[i]) is Some,
    ensures
        next_number(Some(entries)) > entry_number(entries[i])->0,
{
    law_highest_is_a_maximum(entries);
}

/// A folder name gives back the number it was made with.
pub proof fn law_folder_name_carries_its_number(n: u32, title: Seq<char>)
    ensures
        name_number(folder_name(n as nat, title)) == Some(n),
{
    reveal_strlit("-");
    let number = zero_padded(digits(n as nat), 3);
    lemma_padded_decimal_reads_back(n, 3);
    let name = folder_name(n as nat, title);
    assert forall|j: int| 0 <= j < number.len() implies name[j] != '-' by {
        assert(is_digit(number[j]));
    }
    assert(is_first_dash(name, number.len() as int));
    let k = choose|k: int| is_first_dash(name, k);
    assert(k == number.len());
    assert(name.take(k) =~= number);
}

/// Once the folder of the next number exists, the numbering has moved on by one:
/// the same number is not given out again.
pub proof fn law_created_folder_moves_numbering_on(
    listing: Option<Seq<EntryView>>,
    title: Seq<char>,
)
    requires
        next_number(listing) <= u32::MAX,
    ensures
        ({
            let before = match listing {
                Some(entries) => entries,
                None => Seq::empty(),
            };
            let created = EntryView {
                name: Some(folder_name(next_number(listing), title)),
                is_dir: true,
            };
            next_number(Some(before.push(created))) == next_number(listing) + 1
        }),
{
    let before = match listing {
        Some(entries) => entries,
        None => Seq::empty(),
    };
    let n = next_number(listing);
    let created = EntryView { name: Some(folder_name(n, title)), is_dir: true };
    law_folder_name_carries_its_number(n as u32, title);
    assert(before.push(created).drop_last() =~= before);
    assert(highest(Seq::<EntryView>::empty()) is None);
}

/// Two experiments created one after the other get different folders, whatever
/// their titles.
pub proof fn law_successive_folders_differ(
    listing: Option<Seq<EntryView>>,
    title: Seq<char>,
    other: Seq<char>,
)
    requires
        next_number(listing) + 1 <= u32::MAX,
    ensures
        folder_name(next_number(listing), title) != folder_name(next_number(listing) + 1, other),
{
    let n = next_number(listing);
    law_folder_name_carries_its_number(n as u32, title);
    law_folder_name_carries_its_number((n + 1) as u32, other);
}

/// Numbering only moves forward: further entries never lower the next number.
pub proof fn law_numbering_only_moves_forward(entries: Seq<EntryView>, more: Seq<EntryView>)
    ensures
        next_number(Some(entries)) <= next_number(Some(entries + more)),
{
    law_highest_is_a_maximum(entries);
    law_highest_is_a_maximum(entries + more);
    if highest(entries) is Some {
        let i = choose|i: int|
            0 <= i < entries.len() && #[trigger] entry_number(entries[i]) == highest(entries);
        assert((entries + more)[i] == entries[i]);
    }
}

/// Deleting a folder does not reissue its number, as long as a folder with a
/// number as high stays. (The folder with the highest number of all is the one
/// whose number comes free.)
pub proof fn law_deleted_number_is_not_reissued(entries: Seq<EntryView>, gone: int, kept: int)
    requires
        0 <= gone < entries.len(),
        0 <= kept < entries.len(),
        gone != kept,
        entry_number(entries[gone]) is Some,
        entry_number(entries[kept]) is Some,
        entry_number(entries[gone])->0 <= entry_number(entries[kept])->0,
    ensures
        next_number(Some(entries.remove(gone))) > entry_number(entries[gone])->0,
{
    let left = entries.remove(gone);
    let at = if kept < gone {
        kept
    } else {
        kept - 1
    };
    assert(left[at] == entries[kept]);
    law_next_number_is_fresh(left, at);
}

/// An entry that is no numbered directory has no say in the numbering.
pub proof fn law_other_entries_are_ignored(entries: Seq<EntryView>, entry: EntryView)
    requires
        entry_number(entry) is None,
    ensures
        next_number(Some(entries.push(entry))) == next_number(Some(entries)),
{
    assert(entries.push(entry).drop_last() =~= entries);
}

/// Whether `s` starts like a slug: lower-case letters, digits and single dashes,
/// the first no dash.
pub open spec fn is_slug_start(s: Seq<char>) -> bool {
    &&& forall|i: int|
        0 <= i < s.len() ==> '0' <= (#[trigger] s[i]) <= '9' || 'a' <= s[i] <= 'z' || s[i] == '-'
    &&& s.len() > 0 ==> s[0] != '-'
    &&& forall|i: int, j: int|
        0 <= i && j == i + 1 && j < s.len() ==> !(#[trigger] s[i] == '-' && #[trigger] s[j] == '-')
}

/// Whether `s` is a slug: safe as a file name on every filesystem.
pub open spec fn is_slug(s: Seq<char>) -> bool {
    &&& 0 < s.len() <= 60
    &&& is_slug_start(s)
    &&& s.last() != '-'
}

/// Joined words start like a slug.
proof fn lemma_dashed_is_slug_start(ws: Seq<Seq<char>>)
    requires
        forall|i: int| 0 <= i < ws.len() ==> (#[trigger] ws[i]).len() > 0,
        forall|i: int, j: int|
            0 <= i < ws.len() && 0 <= j < ws[i].len() ==> is_slug_char(#[trigger] ws[i][j]),
    ensures
        is_slug_start(dashed(ws)),
        ws.len() > 0 ==> dashed(ws).len() > 0 && is_slug_char(dashed(ws).last()),
    decreases ws.len(),
{
    if ws.len() > 1 {
        let head = dashed(ws.drop_last());
        lemma_dashed_is_slug_start(ws.drop_last());
        let all = dashed(ws);
        let w = ws.last();
        assert forall|i: int| 0 <= i < all.len() implies is_slug_char(#[trigger] all[i]) || all[i]
            == '-' by {
            if i < head.len() {
                assert(all[i] == head[i]);
            } else if i > head.len() {
                assert(all[i] == w[i - head.len() - 1]);
                assert(is_slug_char(ws[ws.len() - 1][i - head.len() - 1]));
            }
        }
        assert forall|i: int, j: int| 0 <= i && j == i + 1 && j < all.len() implies !(
        #[trigger] all[i] == '-' && #[trigger] all[j] == '-') by {
            if j < head.len() {
                assert(all[i] == head[i] && all[j] == head[j]);
            } else if i < head.len() {
                assert(all[i] == head.last());
            } else {
                assert(all[j] == w[j - head.len() - 1]);
                assert(is_slug_char(ws[ws.len() - 1][j - head.len() - 1]));
            }
        }
        assert(all.last() == w.last());
        assert(is_slug_char(ws[ws.len() - 1][w.len() - 1]));
        assert(all[0] == head[0]);
    } else if ws.len() == 1 {
        assert(forall|j: int| 0 <= j < ws[0].len() ==> is_slug_char(#[trigger] ws[0][j]));
    }
}

/// Removing dashes from the end leaves a start of the text, without a dash at
/// its end.
proof fn lemma_undashed_end(s: Seq<char>)
    ensures
        undashed_end(s).len() <= s.len(),
        undashed_end(s) == s.take(undashed_end(s).len() as int),
        undashed_end(s).len() > 0 ==> undashed_end(s).last() != '-',
        s.len() > 0 && s[0] != '-' ==> undashed_end(s).len() > 0,
    decreases s.len(),
{
    if s.len() > 0 && s.last() == '-' {
        lemma_undashed_end(s.drop_last());
        let n = undashed_end(s).len() as int;
        assert(s.drop_last().take(n) =~= s.take(n));
        if s[0] != '-' {
            assert(s.drop_last()[0] == s[0]);
        }
    } else {
        assert(s.take(s.len() as int) =~= s);
    }
}

/// Every start of a slug start is one.
proof fn lemma_slug_start_of_start(s: Seq<char>, n: int)
    requires
        is_slug_start(s),
        0 <= n <= s.len(),
    ensures
        is_slug_start(s.take(n)),
{
    let t = s.take(n);
    assert forall|i: int| 0 <= i < t.len() implies is_slug_char(#[trigger] t[i]) || t[i] == '-' by {
        assert(t[i] == s[i]);
    }
    assert forall|i: int, j: int| 0 <= i && j == i + 1 && j < t.len() implies !(#[trigger] t[i]
        == '-' && #[trigger] t[j] == '-') by {
        assert(t[i] == s[i] && t[j] == s[j]);
    }
}

/// Whatever the title, its slug holds lower-case letters, digits and single
/// dashes only, starts and ends with no dash, and has 1 to 60 characters.
pub proof fn law_slug_is_filesystem_safe(title: Seq<char>)
    ensures
        is_slug(slug(title)),
{
    lemma_words(title);
    let joined = dashed(words(title));
    lemma_dashed_is_slug_start(words(title));
    let short = first(joined, 60);
    assert(joined.take(joined.len() as int) =~= joined);
    lemma_slug_start_of_start(joined, short.len() as int);
    let cut = undashed_end(short);
    lemma_undashed_end(short);
    lemma_slug_start_of_start(short, cut.len() as int);
    if cut.len() == 0 {
        reveal_strlit("experiment");
    }
}

/// A slug start comes out of its own words unchanged, but for a dash at its end.
proof fn lemma_words_of_slug_start(s: Seq<char>)
    requires
        is_slug_start(s),
    ensures
        s.len() > 0 && s.last() == '-' ==> dashed(words(s)) == s.drop_last(),
        !(s.len() > 0 && s.last() == '-') ==> dashed(words(s)) == s,
    decreases s.len(),
{
    if s.len() > 0 {
        let before = s.drop_last();
        assert(before =~= s.take(s.len() - 1));
        lemma_slug_start_of_start(s, s.len() - 1);
        lemma_words_of_slug_start(before);
        lemma_dashed_step(s);
        lemma_words(before);
        lemma_words(s);
        let c = s.last();
        if before.len() > 0 {
            assert(is_slug_char(before.last()) || before.last() == '-');
            assert(before.last() == s[s.len() - 2]);
        }
        assert(is_slug_char(s[s.len() - 1]) || s[s.len() - 1] == '-');
        assert(is_slug_char(c) ==> lowered(c) == c && is_alnum(c));
    }
}

/// A slug is its own slug.
pub proof fn law_slug_of_a_slug(title: Seq<char>)
    ensures
        slug(slug(title)) == slug(title),
{
    law_slug_is_filesystem_safe(title);
    let s = slug(title);
    lemma_words_of_slug_start(s);
    assert(undashed_end(s) == s);
}

/// The folder of an experiment is a direct child of `.ire/experiments/`: its name
/// holds no separator and is neither `.` nor `..`.
pub proof fn law_folder_name_is_one_path_component(n: u32, title: Seq<char>)
    ensures
        folder_name(n as nat, title).len() > 3,
        forall|i: int|
            0 <= i < folder_name(n as nat, title).len() ==> '0' <= (#[trigger] folder_name(
                n as nat,
                title,
            )[i]) <= '9' || 'a' <= folder_name(n as nat, title)[i] <= 'z' || folder_name(
                n as nat,
                title,
            )[i] == '-',
{
    reveal_strlit("-");
    law_slug_is_filesystem_safe(title);
    lemma_padded_decimal_reads_back(n, 3);
    let number = zero_padded(digits(n as nat), 3);
    let name = folder_name(n as nat, title);
    assert forall|i: int| 0 <= i < name.len() implies is_slug_char(#[trigger] name[i]) || name[i]
        == '-' by {
        if i < number.len() {
            assert(name[i] == number[i]);
            assert(is_digit(number[i]));
        } else if i > number.len() {
            assert(name[i] == slug(title)[i - number.len() - 1]);
        }
    }
}

/// No stretch of a command is its fence, so the command cannot close it; and the
/// fence has at least three backticks and nothing else.
pub proof fn law_command_cannot_close_its_fence(command: Seq<char>)
    ensures
        forall|i: int|
            0 <= i && i + fence(command).len() <= command.len() ==> #[trigger] command.subrange(
                i,
                i + fence(command).len(),
            ) != fence(command),
        fence(command).len() >= 3,
        forall|j: int| 0 <= j < fence(command).len() ==> fence(command)[j] == '`',
{
    let n = fence(command).len();
    law_longest_run_is_the_longest(command);
    let longest = longest_run(command);
    assert forall|i: int| 0 <= i && i + n <= command.len() implies #[trigger] command.subrange(
        i,
        i + n,
    ) != fence(command) by {
        if command.subrange(i, i + n) == fence(command) {
            assert forall|j: int| i <= j < i + n implies command[j] == '`' by {
                assert(command.subrange(i, i + n)[j - i] == '`');
            }
            assert(run_at(command, i, n));
            lemma_run_shorter(command, n, longest + 1);
        }
    }
}

/// The longest run is one: the text holds a run of that length and none longer.
pub proof fn law_longest_run_is_the_longest(s: Seq<char>)
    ensures
        has_run(s, longest_run(s)),
        !has_run(s, longest_run(s) + 1),
{
    assert(run_at(s, 0, 0));
    lemma_longest_run_from(s, 0);
}

/// Some run at least as long as a given one is the longest.
proof fn lemma_longest_run_from(s: Seq<char>, n: nat)
    requires
        has_run(s, n),
    ensures
        exists|m: nat| #[trigger] has_run(s, m) && !has_run(s, m + 1),
    decreases s.len() - n,
{
    if has_run(s, n + 1) {
        let i = choose|i: int| #[trigger] run_at(s, i, n + 1);
        lemma_longest_run_from(s, n + 1);
    }
}

/// Whether `c` is an ASCII letter or digit: what a slug keeps of a title.
pub open spec fn is_kept(c: char) -> bool {
    ||| '0' <= c <= '9'
    ||| 'a' <= c <= 'z'
    ||| 'A' <= c <= 'Z'
}

/// The ASCII letters and digits of a text, in order and in lower case.
pub open spec fn letters(s: Seq<char>) -> Seq<char>
    decreases s.len(),
{
    if s.len() == 0 {
        Seq::empty()
    } else {
        let before = letters(s.drop_last());
        let c = s.last();
        if 'A' <= c <= 'Z' {
            before.push((c as u32 + 32) as char)
        } else if is_kept(c) {
            before.push(c)
        } else {
            before
        }
    }
}

/// How many letters and digits stand before place `i`.
pub open spec fn rank(s: Seq<char>, i: int) -> nat {
    letters(s.take(i)).len()
}

/// The letters of a start of a text are a start of its letters.
proof fn lemma_letters_of_start(s: Seq<char>, n: int)
    requires
        0 <= n <= s.len(),
    ensures
        letters(s.take(n)).len() <= letters(s).len(),
        letters(s.take(n)) == letters(s).take(letters(s.take(n)).len() as int),
        n < s.len() && is_kept(s[n]) ==> letters(s.take(n)).len() < letters(s).len(),
    decreases s.len() - n,
{
    if n < s.len() {
        let more = s.take(n + 1);
        assert(more.drop_last() =~= s.take(n));
        assert(more.last() == s[n]);
        lemma_letters_of_start(s, n + 1);
        let few = letters(s.take(n));
        assert(letters(s).take(few.len() as int) =~= letters(more).take(few.len() as int));
        assert(letters(more).take(few.len() as int) =~= few);
    } else {
        assert(s.take(n) =~= s);
        assert(letters(s).take(letters(s).len() as int) =~= letters(s));
    }
}

/// Of two places with letters, the later one has the higher rank.
proof fn lemma_rank_grows(s: Seq<char>, p: int, q: int)
    requires
        0 <= p < q <= s.len(),
        is_kept(s[p]),
    ensures
        rank(s, p) < rank(s, q),
{
    lemma_letters_of_start(s.take(q), p);
    assert(s.take(q).take(p) =~= s.take(p));
    assert(s.take(q)[p] == s[p]);
}

/// The rank of a place goes by what stands before it.
proof fn lemma_rank_of_start(s: Seq<char>, n: int, i: int)
    requires
        0 <= i <= n <= s.len(),
    ensures
        rank(s.take(n), i) == rank(s, i),
{
    assert(s.take(n).take(i) =~= s.take(i));
}

/// Whether a slug `o` of a title `s` keeps words together and apart: what follows a
/// letter of `o` is a letter just where this is so in `s`.
pub open spec fn keeps_words(s: Seq<char>, o: Seq<char>) -> bool {
    forall|p: int, q: int|
        #![trigger s[p], o[q]]
        0 <= p < s.len() && 0 <= q < o.len() - 1 && is_kept(s[p]) && is_kept(o[q]) && rank(s, p)
            == rank(o, q) ==> p + 1 < s.len() && (is_kept(o[q + 1]) <==> is_kept(s[p + 1]))
}

/// A title's words with dashes between them, and the dash owed after the last.
spec fn uncut(s: Seq<char>) -> Seq<char> {
    dashed(words(s)) + dash_after(s)
}

/// What holds of a title's joined words.
proof fn lemma_uncut(s: Seq<char>)
    ensures
        uncut(s).len() <= s.len(),
        letters(uncut(s)) == letters(s),
        forall|i: int|
            0 <= i < uncut(s).len() ==> is_kept(#[trigger] uncut(s)[i]) || uncut(s)[i] == '-',
        uncut(s).len() > 0 ==> (is_kept(uncut(s).last()) <==> is_kept(s.last())),
        keeps_words(s, uncut(s)),
    decreases s.len(),
{
    let o = uncut(s);
    if s.len() == 0 {
        assert(o =~= Seq::empty());
    } else {
        let before = s.drop_last();
        let ob = uncut(before);
        let c = s.last();
        lemma_uncut(before);
        lemma_dashed_step(s);
        assert(before =~= s.take(s.len() - 1));
        assert(is_alnum(c) == is_kept(c));
        let grown = o.len() > ob.len();
        if grown {
            assert(o.drop_last() =~= ob);
            assert(is_kept(o.last()) == is_kept(c));
        }
        assert(letters(o) =~= letters(s));
        assert forall|i: int| 0 <= i < o.len() implies is_kept(#[trigger] o[i]) || o[i] == '-' by {
            if i < ob.len() {
                assert(o[i] == ob[i]);
            }
        }
        assert(ob =~= o.take(ob.len() as int));
        assert forall|p: int, q: int|
            #![trigger s[p], o[q]]
            0 <= p < s.len() && 0 <= q < o.len() - 1 && is_kept(s[p]) && is_kept(o[q]) && rank(s, p)
                == rank(o, q) implies p + 1 < s.len() && (is_kept(o[q + 1]) <==> is_kept(
            s[p + 1],
        )) by {
            assert(o[q] == ob[q]);
            lemma_rank_of_start(o, ob.len() as int, q);
            lemma_rank_of_start(s, s.len() - 1, p);
            lemma_letters_of_start(ob, q);
            if p == s.len() - 1 {
                assert(s.take(p) =~= before);
                assert(false);
            }
            assert(before[p] == s[p]);
            if q + 1 < ob.len() {
                assert(o[q + 1] == ob[q + 1]);
                assert(before[p + 1] == s[p + 1]);
            } else {
                let last = before.len() - 1;
                assert(ob.last() == ob[q]);
                assert(is_kept(before.last()));
                assert(before.take(last) =~= before.drop_last());
                assert(ob.take(q) =~= ob.drop_last());
                assert(letters(before).len() == rank(before, last) + 1);
                assert(letters(ob).len() == rank(ob, q) + 1);
                if p < last {
                    lemma_rank_grows(before, p, last);
                }
                assert(p == last);
            }
        }
    }
}

/// Where a title has letters or digits, its slug is a start of its joined words: all of
/// them, or 60 characters, or 59 before a dash.
proof fn lemma_slug_is_start(title: Seq<char>)
    requires
        letters(title).len() > 0,
    ensures
        ({
            let o = uncut(title);
            let n = slug(title).len() as int;
            &&& 0 < n <= o.len()
            &&& slug(title) == o.take(n)
            &&& n == o.len() || n == 60 || (o[n] == '-' && (n == 59 || n == o.len() - 1))
        }),
{
    lemma_uncut(title);
    lemma_words(title);
    lemma_dashed_is_slug_start(words(title));
    law_slug_is_filesystem_safe(title);
    let o = uncut(title);
    let joined = dashed(words(title));
    if words(title).len() == 0 {
        assert(o =~= Seq::empty());
        assert(letters(o).len() == 0);
    }
    let short = first(joined, 60);
    let cut = undashed_end(short);
    lemma_undashed_end(short);
    assert(joined =~= o.take(joined.len() as int));
    assert(short =~= o.take(short.len() as int));
    assert(cut =~= o.take(cut.len() as int));
    if cut.len() < short.len() {
        assert(short.last() == '-');
        assert(joined.len() > 60);
        assert(joined[59] == '-');
        assert(joined[58] != '-');
        assert(short.drop_last().last() == joined[58]);
        assert(undashed_end(short.drop_last()) == short.drop_last());
        assert(o[59] == '-');
    }
}

/// A slug holds the letters and digits of its title, in order and in lower case, from
/// the first on; a title without any has the slug `experiment`.
pub proof fn law_slug_holds_the_letters_of_its_title(title: Seq<char>)
    ensures
        letters(title).len() == 0 ==> slug(title) == "experiment"@,
        letters(title).len() > 0 ==> 0 < letters(slug(title)).len() <= letters(title).len()
            && letters(slug(title)) == letters(title).take(letters(slug(title)).len() as int),
{
    lemma_uncut(title);
    if letters(title).len() == 0 {
        lemma_words(title);
        lemma_dashed_is_slug_start(words(title));
        let joined = dashed(words(title));
        if words(title).len() > 0 {
            assert(is_kept(uncut(title)[0])) by {
                assert(uncut(title)[0] == joined[0]);
            }
            lemma_rank_grows(uncut(title), 0, uncut(title).len() as int);
            assert(uncut(title).take(uncut(title).len() as int) =~= uncut(title));
        }
        assert(joined =~= Seq::empty());
    } else {
        lemma_slug_is_start(title);
        let n = slug(title).len() as int;
        lemma_letters_of_start(uncut(title), n);
        law_slug_is_filesystem_safe(title);
        lemma_letters_of_start(slug(title), 0);
        assert(is_kept(slug(title)[0]));
    }
}

/// A slug loses nothing of a title that fits, and is cut no shorter than it must be: it
/// misses letters only where it has 60 characters, or 59 where the 60th would be the
/// dash after a word. A title of up to 60 characters always fits.
pub proof fn law_slug_is_cut_only_at_sixty(title: Seq<char>)
    requires
        letters(title).len() > 0,
    ensures
        title.len() <= 60 ==> letters(slug(title)) == letters(title),
        letters(slug(title)) != letters(title) ==> {
            ||| slug(title).len() == 60
            ||| slug(title).len() == 59 && forall|p: int|
                0 <= p < title.len() && is_kept(#[trigger] title[p]) && rank(title, p) + 1
                    == letters(slug(title)).len() ==> p + 1 < title.len() && !is_kept(title[p + 1])
        },
{
    lemma_uncut(title);
    lemma_slug_is_start(title);
    law_slug_is_filesystem_safe(title);
    let o = uncut(title);
    let cut = slug(title);
    let n = cut.len() as int;
    if n == o.len() {
        assert(o.take(n) =~= o);
    } else {
        if n == o.len() - 1 && o[n] == '-' {
            assert(o.drop_last() =~= cut);
            assert(letters(o) == letters(cut));
        }
        if letters(cut) != letters(title) && n == 59 {
            assert(o[n] == '-');
            let q = n - 1;
            assert(cut.last() == o[q]);
            assert(is_kept(o[q]));
            assert(cut.drop_last() =~= o.take(q));
            assert(letters(cut).len() == rank(o, q) + 1);
            assert(!is_kept(o[q + 1]));
        }
    }
}

/// Words stay together and apart: two letters stand side by side in a slug just where
/// they do in the title, and a single dash stands between words.
pub proof fn law_slug_keeps_words(title: Seq<char>)
    requires
        letters(title).len() > 0,
    ensures
        keeps_words(title, slug(title)),
{
    lemma_uncut(title);
    lemma_slug_is_start(title);
    let o = uncut(title);
    let cut = slug(title);
    let n = cut.len() as int;
    assert forall|p: int, q: int|
        #![trigger title[p], cut[q]]
        0 <= p < title.len() && 0 <= q < cut.len() - 1 && is_kept(title[p]) && is_kept(cut[q])
            && rank(title, p) == rank(cut, q) implies p + 1 < title.len() && (is_kept(cut[q + 1])
        <==> is_kept(title[p + 1])) by {
        lemma_rank_of_start(o, n, q);
        assert(cut[q] == o[q] && cut[q + 1] == o[q + 1]);
    }
}

/// The number before the first dash of a folder name is read, whatever follows it.
pub proof fn law_number_before_the_first_dash_is_read(ds: Seq<char>, rest: Seq<char>)
    requires
        is_row_of_digits(ds),
        written(ds) <= u32::MAX,
    ensures
        name_number(ds + seq!['-'] + rest) == Some(written(ds) as u32),
        name_number(seq!['+'] + ds + seq!['-'] + rest) == Some(written(ds) as u32),
{
    law_digits_are_read(ds);
    let plus = seq!['+'] + ds;
    lemma_first_dash(ds + seq!['-'] + rest, ds, rest);
    assert forall|j: int| 0 <= j < plus.len() implies plus[j] != '-' by {
        if j > 0 {
            assert(plus[j] == ds[j - 1]);
        }
    }
    lemma_first_dash(plus + seq!['-'] + rest, plus, rest);
}

/// The first dash of a text whose start has none.
proof fn lemma_first_dash(name: Seq<char>, start: Seq<char>, rest: Seq<char>)
    requires
        name == start + seq!['-'] + rest,
        forall|j: int| 0 <= j < start.len() ==> start[j] != '-',
    ensures
        is_first_dash(name, start.len() as int),
        forall|i: int| #[trigger] is_first_dash(name, i) ==> i == start.len(),
        name.take(start.len() as int) == start,
{
    assert(name.take(start.len() as int) =~= start);
    assert forall|j: int| 0 <= j < start.len() implies name[j] != '-' by {
        assert(name[j] == start[j]);
    }
    assert(name[start.len() as int] == '-');
    assert forall|i: int| #[trigger] is_first_dash(name, i) implies i == start.len() by {
        if i < start.len() {
            assert(name[i] == start[i]);
        }
    }
}

/// A folder name holds a number only where digits stand before its first dash, with or
/// without a plus sign, and it is the number that they write.
pub proof fn law_only_leading_digits_are_a_number(name: Seq<char>)
    requires
        name_number(name) is Some,
    ensures
        exists|k: int|
            #![trigger name[k]]
            {
                &&& 0 <= k < name.len()
                &&& name[k] == '-'
                &&& {
                    ||| is_row_of_digits(name.take(k)) && written(name.take(k)) == name_number(
                        name,
                    )->0
                    ||| k > 0 && name[0] == '+' && is_row_of_digits(name.subrange(1, k)) && written(
                        name.subrange(1, k),
                    ) == name_number(name)->0
                }
            },
{
    let k = choose|k: int| is_first_dash(name, k);
    let start = name.take(k);
    law_only_digits_are_read(start);
    let ds = choose|ds: Seq<char>|
        #![trigger is_row_of_digits(ds)]
        is_row_of_digits(ds) && (start == ds || start == seq!['+'] + ds) && written(ds)
            == name_number(name)->0;
    if start != ds {
        assert(start[0] == '+');
        assert(name.subrange(1, k) =~= ds) by {
            assert forall|j: int| 0 <= j < ds.len() implies name[j + 1] == ds[j] by {
                assert(start[j + 1] == ds[j]);
            }
        }
    }
    assert(name[k] == '-');
}

/// The next number is one where there is no listing or no numbered directory, and
/// otherwise one past the highest number of a directory: every numbered directory has a
/// lower one, and one of them the number just below.
pub proof fn law_next_number_is_one_past_the_highest(entries: Seq<EntryView>)
    ensures
        next_number(None) == 1,
        next_number(Some(entries)) >= 1,
        forall|i: int|
            0 <= i < entries.len() && (#[trigger] entries[i]).is_dir && entries[i].name is Some
                && name_number(entries[i].name->0) is Some ==> name_number(entries[i].name->0)->0
                < next_number(Some(entries)),
        next_number(Some(entries)) == 1 || exists|i: int|
            0 <= i < entries.len() && (#[trigger] entries[i]).is_dir && entries[i].name is Some
                && name_number(entries[i].name->0) is Some && name_number(entries[i].name->0)->0 + 1
                == next_number(Some(entries)),
{
    law_highest_is_a_maximum(entries);
    assert forall|i: int|
        0 <= i < entries.len() && (#[trigger] entries[i]).is_dir && entries[i].name is Some
            && name_number(entries[i].name->0) is Some implies name_number(entries[i].name->0)->0
        < next_number(Some(entries)) by {
        assert(entry_number(entries[i]) is Some);
    }
    if highest(entries) is Some {
        let i = choose|i: int|
            0 <= i < entries.len() && #[trigger] entry_number(entries[i]) == highest(entries);
        assert(entries[i].is_dir);
    }
}

/// A folder name is the number with at least three digits, no zero more than that
/// takes, then a dash and the slug of the title.
pub proof fn law_folder_name_is_number_dash_slug(n: nat, title: Seq<char>)
    ensures
        exists|k: int|
            #![trigger folder_name(n, title)[k]]
            {
                let name = folder_name(n, title);
                &&& 3 <= k < name.len()
                &&& is_row_of_digits(name.take(k))
                &&& written(name.take(k)) == n
                &&& k > 3 ==> name[0] != '0'
                &&& name[k] == '-'
                &&& name.skip(k + 1) == slug(title)
            },
{
    reveal_strlit("-");
    law_padded_decimal(n, 3);
    let number = zero_padded(digits(n), 3);
    let name = folder_name(n, title);
    let k = number.len() as int;
    law_slug_is_filesystem_safe(title);
    assert(name.take(k) =~= number);
    assert(name.skip(k + 1) =~= slug(title));
    assert(name[k] == '-');
    assert(name[0] == number[0]);
}

/// A fence is no longer than it must be: three backticks, unless the command has as
/// many as all but one of its fence side by side.
pub proof fn law_fence_is_no_longer_than_needed(command: Seq<char>)
    ensures
        fence(command).len() > 3 ==> exists|i: int|
            #![trigger command[i]]
            0 <= i && i + fence(command).len() - 1 <= command.len() && forall|j: int|
                i <= j < i + fence(command).len() - 1 ==> command[j] == '`',
{
    law_longest_run_is_the_longest(command);
    let longest = longest_run(command);
    let i = choose|i: int| #[trigger] run_at(command, i, longest);
    if longest > 2 {
        assert(command[i] == '`');
    }
}

/// Whether `piece` stands in `text` from place `p` on.
pub open spec fn stands_at(text: Seq<char>, piece: Seq<char>, p: int) -> bool {
    0 <= p && p + piece.len() <= text.len() && text.subrange(p, p + piece.len()) == piece
}

/// A piece stands where it was put.
proof fn lemma_stands(before: Seq<char>, piece: Seq<char>, after: Seq<char>)
    ensures
        stands_at(before + piece + after, piece, before.len() as int),
{
    let text = before + piece + after;
    assert(text.subrange(before.len() as int, (before.len() + piece.len()) as int) =~= piece);
}

/// How a record ends: where the artifacts and the logs of the experiment are.
pub open spec fn record_end(uuid: Seq<char>) -> Seq<char> {
    "\n\n---\n\nArtifacts belonging to this experiment — scripts, result files, notes — go in\nthis folder. Raw stdout/stderr stay in `.ire/cache/experiments/"@
        + uuid + "/`.\n"@
}

/// The whole command stands in the record, just as it is, as a fenced block: the fence
/// and `sh`, the command, and the fence again, each on a line of its own.
pub proof fn law_record_holds_the_whole_command(args: RecordArgs)
    ensures
        exists|p: int| #[trigger]
            stands_at(
                record_text(args),
                fence(args.command@) + "sh\n"@ + args.command@ + "\n"@ + fence(args.command@)
                    + "\n"@,
                p,
            ),
        stands_at(
            record_text(args),
            fence(args.command@) + "sh\n"@ + args.command@ + "\n"@ + fence(args.command@),
            record_text(args).len() - record_end(args.uuid@).len() - (2 * fence(args.command@).len()
                + "sh\n"@.len() + args.command@.len() + "\n"@.len()),
        ),
{
    reveal_strlit("\n");
    let f = fence(args.command@);
    let tail = record_tail(args);
    let block = f + "sh\n"@ + args.command@ + "\n"@ + f + "\n"@;
    reveal_strlit(
        "\n\n---\n\nArtifacts belonging to this experiment — scripts, result files, notes — go in\nthis folder. Raw stdout/stderr stay in `.ire/cache/experiments/",
    );
    assert(tail[0] == '\n');
    assert(tail =~= "\n"@ + tail.skip(1));
    lemma_stands(record_head(args), block, tail.skip(1));
    assert(record_text(args) =~= record_head(args) + block + tail.skip(1));
    let fenced = f + "sh\n"@ + args.command@ + "\n"@ + f;
    lemma_stands(record_head(args), fenced, tail);
    assert(record_text(args) =~= record_head(args) + fenced + tail);
}

/// Records of different commands have different texts, where all else is the same and
/// the fences are as long.
pub proof fn law_records_tell_commands_apart(args: RecordArgs, other: RecordArgs)
    requires
        args.uuid@ == other.uuid@,
        args.name@ == other.name@,
        args.working_dir@ == other.working_dir@,
        args.wake_prompt@ == other.wake_prompt@,
        args.started_at@ == other.started_at@,
        fence(args.command@).len() == fence(other.command@).len(),
        args.command@ != other.command@,
    ensures
        record_text(args) != record_text(other),
{
    let f = fence(args.command@);
    law_command_cannot_close_its_fence(args.command@);
    law_command_cannot_close_its_fence(other.command@);
    assert(f =~= fence(other.command@));
    let front = record_head(args) + f + "sh\n"@;
    let back = "\n"@ + f + record_tail(args);
    assert(record_text(args) =~= front + args.command@ + back);
    assert(record_text(other) =~= front + other.command@ + back);
    if record_text(args) == record_text(other) {
        let text = record_text(args);
        assert(args.command@.len() == other.command@.len());
        let to = front.len() + args.command@.len();
        assert(text.subrange(front.len() as int, to as int) =~= args.command@);
        assert(text.subrange(front.len() as int, to as int) =~= other.command@);
    }
}

/// The record starts with the title as its heading, without white space around it.
pub proof fn law_record_starts_with_the_title(args: RecordArgs)
    ensures
        stands_at(record_text(args), "# "@ + trimmed(args.name@) + "\n\n- **uuid**: `"@, 0),
{
    let piece = "# "@ + trimmed(args.name@) + "\n\n- **uuid**: `"@;
    let f = fence(args.command@);
    let rest = args.uuid@ + "`\n- **started**: "@ + args.started_at@
        + "\n- **working dir**: `"@ + args.working_dir@ + "`\n\n## Goal & context\n\n"@ + trimmed(
        args.wake_prompt@,
    ) + "\n\n## Command\n\n"@ + f + "sh\n"@ + args.command@ + "\n"@ + f + record_tail(args);
    lemma_stands(Seq::empty(), piece, rest);
    assert(record_text(args) =~= Seq::empty() + piece + rest);
}

/// The record says who ran, when and where, and why: the uuid, the start time and the
/// working directory just as they are, and the goal without white space around it, each
/// in its own place and in that order, right below the heading.
pub proof fn law_record_says_who_when_where_and_why(args: RecordArgs)
    ensures
        stands_at(
            record_text(args),
            "\n\n- **uuid**: `"@ + args.uuid@ + "`\n- **started**: "@ + args.started_at@
                + "\n- **working dir**: `"@ + args.working_dir@ + "`\n\n## Goal & context\n\n"@
                + trimmed(args.wake_prompt@) + "\n\n## Command\n\n"@ + fence(args.command@),
            ("# "@.len() + trimmed(args.name@).len()) as int,
        ),
{
    let f = fence(args.command@);
    let piece = "\n\n- **uuid**: `"@ + args.uuid@ + "`\n- **started**: "@ + args.started_at@
        + "\n- **working dir**: `"@ + args.working_dir@ + "`\n\n## Goal & context\n\n"@ + trimmed(
        args.wake_prompt@,
    ) + "\n\n## Command\n\n"@ + f;
    let before = "# "@ + trimmed(args.name@);
    let after = "sh\n"@ + args.command@ + "\n"@ + f + record_tail(args);
    lemma_stands(before, piece, after);
    assert(record_text(args) =~= before + piece + after);
}

/// The record ends with where the artifacts and the logs of the experiment are.
pub proof fn law_record_ends_with_where_things_are(args: RecordArgs)
    ensures
        stands_at(
            record_text(args),
            record_end(args.uuid@),
            record_text(args).len() - record_end(args.uuid@).len(),
        ),
{
    let f = fence(args.command@);
    let end = record_tail(args);
    let before = record_head(args) + f + "sh\n"@ + args.command@ + "\n"@ + f;
    lemma_stands(before, end, Seq::empty());
    assert(record_text(args) =~= before + end + Seq::empty());
}

/// The record holds its pieces and nothing else: its length is theirs together.
pub proof fn law_record_holds_nothing_else(args: RecordArgs)
    ensures
        record_text(args).len() == trimmed(args.name@).len() + trimmed(args.wake_prompt@).len() + 2
            * args.uuid@.len() + args.started_at@.len() + args.working_dir@.len() + 2 * fence(
            args.command@,
        ).len() + args.command@.len() + ("# "@.len() + "\n\n- **uuid**: `"@.len()
            + "`\n- **started**: "@.len() + "\n- **working dir**: `"@.len()
            + "`\n\n## Goal & context\n\n"@.len() + "\n\n## Command\n\n"@.len() + "sh\n"@.len()
            + "\n"@.len()
            + "\n\n---\n\nArtifacts belonging to this experiment — scripts, result files, notes — go in\nthis folder. Raw stdout/stderr stay in `.ire/cache/experiments/"@.len()
            + "/`.\n"@.len()),
{
}

/// An entry holds a number just when it is a directory whose name holds it.
pub proof fn law_only_directories_hold_numbers(entry: EntryView, n: u32)
    ensures
        entry_number(entry) == Some(n) <==> entry.is_dir && entry.name is Some && name_number(
            entry.name->0,
        ) == Some(n),
{
}

/// A listing stands for its entries one by one, each with its own name and kind.
pub proof fn law_listing_stands_for_its_entries(entries: Vec<FolderEntry>)
    ensures
        listing_view(None) is None,
        listing_view(Some(entries)) == Some(entry_views(entries@)),
        entry_views(entries@).len() == entries@.len(),
        forall|i: int|
            #![trigger entry_views(entries@)[i]]
            0 <= i < entries@.len() ==> {
                let entry = entries@[i];
                let view = entry_views(entries@)[i];
                &&& view.is_dir == entry.is_dir
                &&& entry.name is None ==> view.name is None
                &&& entry.name matches Some(name) ==> view.name == Some(name@)
            },
{
}

} // verus!
