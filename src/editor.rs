use vstd::prelude::*;
use vstd::string::*;

verus! {

/// The editor command chosen from the candidate settings, first present wins.
pub open spec fn chosen_editor(
    git_editor: Option<Seq<char>>,
    stgit_editor: Option<Seq<char>>,
    core_editor: Option<Seq<char>>,
    visual: Option<Seq<char>>,
    editor: Option<Seq<char>>,
) -> Seq<char> {
    if git_editor is Some {
        git_editor->Some_0
    } else if stgit_editor is Some {
        stgit_editor->Some_0
    } else if core_editor is Some {
        core_editor->Some_0
    } else if visual is Some {
        visual->Some_0
    } else if editor is Some {
        editor->Some_0
    } else {
        seq!['v', 'i']
    }
}

/// The text of an optional string.
pub open spec fn opt_view(o: Option<String>) -> Option<Seq<char>> {
    match o {
        Some(s) => Some(s@),
        None => None,
    }
}

/// Picks the editor command: the `GIT_EDITOR` environment value, then the
/// `stgit.editor` and `core.editor` settings, then the `VISUAL` and `EDITOR`
/// environment values, and `vi` when none is set.
pub fn choose_editor(
    git_editor: Option<String>,
    stgit_editor: Option<String>,
    core_editor: Option<String>,
    visual: Option<String>,
    editor: Option<String>,
) -> (r: String)
    ensures
        r@ == chosen_editor(
            opt_view(git_editor),
            opt_view(stgit_editor),
            opt_view(core_editor),
            opt_view(visual),
            opt_view(editor),
        ),
{
    match git_editor {
        Some(e) => e,
        None => match stgit_editor {
            Some(e) => e,
            None => match core_editor {
                Some(e) => e,
                None => match visual {
                    Some(e) => e,
                    None => match editor {
                        Some(e) => e,
                        None => {
                            proof {
                                reveal_strlit("vi");
                            }
                            let r = "vi".to_owned();
                            assert(r@ =~= seq!['v', 'i']);
                            r
                        },
                    },
                },
            },
        },
    }
}

/// Whether `editor` is the no-op editor `:`, which is never started.
pub fn is_noop_editor(editor: &str) -> (r: bool)
    ensures
        r == (editor@ == seq![':']),
{
    if editor.unicode_len() == 1 && editor.get_char(0) == ':' {
        assert(editor@ =~= seq![':']);
        true
    } else {
        false
    }
}

} // verus!
