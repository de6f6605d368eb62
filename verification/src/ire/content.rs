//! What `ire.json` holds, and the part of it that a reconcile pass watches.

use vstd::prelude::*;
use crate::ire::json::{
    are_members, insert_member, json_compact, json_object, json_string, new_object, no_members,
    object_text, parse_value, string_value, Members,
};

verus! {

/// A parsed `ire.json`. The notes are plain text; the other sections are kept as
/// JSON text.
#[derive(Debug)]
pub struct IreContent {
    pub notes: String,
    pub focus: String,
    pub ideas: String,
    pub experiments: String,
}

/// What an [`IreContent`] stands for.
pub struct ContentView {
    pub notes: Seq<char>,
    pub focus: Seq<char>,
    pub ideas: Seq<char>,
    pub experiments: Seq<char>,
}

impl View for IreContent {
    type V = ContentView;

    open spec fn view(&self) -> ContentView {
        ContentView {
            notes: self.notes@,
            focus: self.focus@,
            ideas: self.ideas@,
            experiments: self.experiments@,
        }
    }
}

/// The section whose text is not JSON.
#[derive(Debug, Clone, Copy, PartialEq, Eq, Structural)]
pub enum SectionsError {
    Focus,
    Ideas,
}

/// The members `notes`, `focus` and `ideas` of an object, by the notes and the compact
/// texts of the other two.
pub open spec fn section_members(
    notes: Seq<char>,
    focus: Seq<char>,
    ideas: Seq<char>,
) -> Members {
    no_members().insert("notes"@, json_string(notes)).insert("focus"@, focus).insert(
        "ideas"@,
        ideas,
    )
}

/// The sections that reconcile emits, as one JSON object with the members
/// `notes`, `focus` and `ideas`.
pub open spec fn sections_of(content: ContentView) -> Result<Seq<char>, SectionsError> {
    match (json_compact(content.focus), json_compact(content.ideas)) {
        (None, _) => Err(SectionsError::Focus),
        (_, None) => Err(SectionsError::Ideas),
        (Some(focus), Some(ideas)) => Ok(
            json_object(section_members(content.notes, focus, ideas)),
        ),
    }
}

/// Whether two contents have the same notes, and the same focus and ideas as JSON.
pub open spec fn same_sections(a: ContentView, b: ContentView) -> bool {
    &&& a.notes == b.notes
    &&& json_compact(a.focus) == json_compact(b.focus)
    &&& json_compact(a.ideas) == json_compact(b.ideas)
}

/// Whether only contents with the same notes, focus and ideas have the sections text
/// of this one.
pub open spec fn told_apart(content: ContentView) -> bool {
    forall|other: ContentView| #[trigger]
        sections_of(other) == sections_of(content) ==> same_sections(other, content)
}

/// The members of a content's sections are those of a JSON object.
proof fn lemma_section_members(content: ContentView)
    requires
        sections_of(content) is Ok,
    ensures
        ({
            let focus = json_compact(content.focus)->0;
            let ideas = json_compact(content.ideas)->0;
            let members = section_members(content.notes, focus, ideas);
            &&& are_members(members)
            &&& members["notes"@] == json_string(content.notes)
            &&& members["focus"@] == focus
            &&& members["ideas"@] == ideas
        }),
{
    reveal_strlit("notes");
    reveal_strlit("focus");
    reveal_strlit("ideas");
    assert("notes"@[0] == 'n' && "focus"@[0] == 'f' && "ideas"@[0] == 'i');
    assert(json_compact(content.focus) == Some(json_compact(content.focus)->0));
    assert(json_compact(content.ideas) == Some(json_compact(content.ideas)->0));
}

/// The text whose hash tells whether `ire.json` changed: only the sections that
/// reconcile emits. The experiment runner rewrites `ire.json` on every status
/// transition, and that churn must not read as a change of notes, focus or ideas.
/// A change of notes, focus or ideas always gives another text.
pub fn sections_text(content: &IreContent) -> (text: Result<String, SectionsError>)
    ensures
        match text {
            Ok(t) => sections_of(content@) == Ok::<Seq<char>, SectionsError>(t@),
            Err(e) => sections_of(content@) == Err::<Seq<char>, SectionsError>(e),
        },
        text is Ok ==> told_apart(content@),
        text is Ok <==> json_compact(content.focus@) is Some && json_compact(content.ideas@) is Some,
        text is Err ==> (text->Err_0 == SectionsError::Focus <==> json_compact(
            content.focus@,
        ) is None),
        text is Ok ==> forall|other: ContentView| #[trigger]
            sections_of(other) == sections_of(content@) ==> other.notes == content.notes@
                && json_compact(other.focus) == json_compact(content.focus@) && json_compact(
                other.ideas,
            ) == json_compact(content.ideas@),
{
    let focus = match parse_value(content.focus.as_str()) {
        Ok(focus) => focus,
        Err(_) => {
            return Err(SectionsError::Focus);
        },
    };
    let ideas = match parse_value(content.ideas.as_str()) {
        Ok(ideas) => ideas,
        Err(_) => {
            return Err(SectionsError::Ideas);
        },
    };
    let notes = string_value(content.notes.as_str());
    let mut sections = new_object();
    insert_member(&mut sections, "notes", notes);
    insert_member(&mut sections, "focus", focus);
    insert_member(&mut sections, "ideas", ideas);
    let text = object_text(sections);
    proof {
        lemma_section_members(content@);
        assert forall|other: ContentView| #[trigger]
            sections_of(other) == sections_of(content@) implies same_sections(other, content@) by {
            lemma_section_members(other);
            assert(json_string(other.notes) == json_string(content.notes@));
        }
    }
    Ok(text)
}

} // verus!
