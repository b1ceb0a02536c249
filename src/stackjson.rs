use vstd::prelude::*;
use vstd::string::*;
use vstd::utf8::encode_utf8;

use crate::oid::ObjectId;
use crate::patchname::{insert_sorted, names_of, sort_names, sorted_names, text_lt, PatchName};
use crate::state::{StackState, StackView};
use crate::text::{append_char, append_hex, hex_digit, hex_digit_exec, hex_of, utf8_bytes};

verus! {

/// The version written into `stack.json`.
pub const STACK_FORMAT_VERSION: u64 = 5;

/// The JSON escape of one character: quote, backslash and the control
/// characters are escaped, `\u00XX` with lowercase digits for controls
/// without a short form; every other character stands for itself.
pub open spec fn char_escape(c: char) -> Seq<char> {
    let u = c as u32;
    if c == '"' {
        seq!['\\', '"']
    } else if c == '\\' {
        seq!['\\', '\\']
    } else if u == 8 {
        seq!['\\', 'b']
    } else if u == 9 {
        seq!['\\', 't']
    } else if u == 10 {
        seq!['\\', 'n']
    } else if u == 12 {
        seq!['\\', 'f']
    } else if u == 13 {
        seq!['\\', 'r']
    } else if u < 0x20 {
        seq!['\\', 'u', '0', '0', hex_digit((u / 16) as u8), hex_digit((u % 16) as u8)]
    } else {
        seq![c]
    }
}

/// The escaped characters of a text.
pub open spec fn escaped(s: Seq<char>) -> Seq<char>
    decreases s.len(),
{
    if s.len() == 0 {
        Seq::empty()
    } else {
        escaped(s.drop_last()) + char_escape(s.last())
    }
}

/// The JSON string literal for a text, quotes and escapes included.
pub open spec fn json_string_of(s: Seq<char>) -> Seq<char> {
    seq!['"'] + escaped(s) + seq!['"']
}

/// Appends the JSON escape of `c`.
fn append_escaped_char(out: &mut String, c: char)
    ensures
        final(out)@ == old(out)@ + char_escape(c),
{
    let u = c as u32;
    if c == '"' || c == '\\' {
        append_char(out, '\\');
        append_char(out, c);
    } else if u == 8 || u == 9 || u == 10 || u == 12 || u == 13 {
        append_char(out, '\\');
        let e = if u == 8 {
            'b'
        } else if u == 9 {
            't'
        } else if u == 10 {
            'n'
        } else if u == 12 {
            'f'
        } else {
            'r'
        };
        append_char(out, e);
    } else if u < 0x20 {
        append_char(out, '\\');
        append_char(out, 'u');
        append_char(out, '0');
        append_char(out, '0');
        append_char(out, hex_digit_exec((u / 16) as u8));
        append_char(out, hex_digit_exec((u % 16) as u8));
    } else {
        append_char(out, c);
    }
    assert(out@ =~= old(out)@ + char_escape(c));
}

/// The JSON string literal for `s`.
pub fn json_quote(s: &str) -> (r: String)
    ensures
        r@ == json_string_of(s@),
{
    let mut out = String::new();
    append_char(&mut out, '"');
    let n = s.unicode_len();
    let mut i: usize = 0;
    while i < n
        invariant
            n == s@.len(),
            0 <= i <= n,
            out@ == seq!['"'] + escaped(s@.subrange(0, i as int)),
        decreases n - i,
    {
        let c = s.get_char(i);
        append_escaped_char(&mut out, c);
        proof {
            let pre = s@.subrange(0, i + 1);
            assert(pre.drop_last() =~= s@.subrange(0, i as int));
            assert(pre.last() == c);
            assert(out@ =~= seq!['"'] + escaped(pre));
        }
        i = i + 1;
    }
    append_char(&mut out, '"');
    assert(s@.subrange(0, n as int) =~= s@);
    assert(out@ =~= json_string_of(s@));
    out
}

/// `parts` with `sep` between each two.
pub open spec fn joined(parts: Seq<Seq<char>>, sep: Seq<char>) -> Seq<char>
    decreases parts.len(),
{
    if parts.len() == 0 {
        Seq::empty()
    } else if parts.len() == 1 {
        parts[0]
    } else {
        joined(parts.drop_last(), sep) + sep + parts.last()
    }
}

/// An object id as a JSON string.
pub open spec fn json_oid(id: ObjectId) -> Seq<char> {
    "\""@ + hex_of(id.bytes@) + "\""@
}

/// A patch name as an element of a pretty-printed array.
pub open spec fn name_item(n: Seq<char>) -> Seq<char> {
    "    "@ + json_string_of(n)
}

/// A pretty-printed JSON array of patch names at the second level.
pub open spec fn json_names(names: Seq<Seq<char>>) -> Seq<char> {
    if names.len() == 0 {
        "[]"@
    } else {
        "[\n"@ + joined(names.map_values(|n: Seq<char>| name_item(n)), ",\n"@) + "\n  ]"@
    }
}

/// The member of the patch table for patch `n`.
pub open spec fn patch_item(v: StackView, n: Seq<char>) -> Seq<char> {
    "    "@ + json_string_of(n) + ": {\n      \"oid\": "@ + json_oid(v.patches[n].commit)
        + "\n    }"@
}

/// The pretty-printed JSON object mapping each patch, in lexicographic
/// order of names, to its commit.
pub open spec fn json_patches(v: StackView) -> Seq<char> {
    if v.all().len() == 0 {
        "{}"@
    } else {
        "{\n"@ + joined(
            sorted_names(v.all()).map_values(|n: Seq<char>| patch_item(v, n)),
            ",\n"@,
        ) + "\n  }"@
    }
}

/// The previous log commit as JSON.
pub open spec fn json_prev(prev: Option<ObjectId>) -> Seq<char> {
    match prev {
        Some(p) => json_oid(p),
        None => "null"@,
    }
}

/// The text of `stack.json` for a stack state.
pub open spec fn stack_json_text(v: StackView) -> Seq<char> {
    "{\n  \"version\": 5,\n  \"prev\": "@ + json_prev(v.prev) + ",\n  \"head\": "@ + json_oid(
        v.head,
    ) + ",\n  \"applied\": "@ + json_names(v.applied) + ",\n  \"unapplied\": "@ + json_names(
        v.unapplied,
    ) + ",\n  \"hidden\": "@ + json_names(v.hidden) + ",\n  \"patches\": "@ + json_patches(v)
        + "\n}"@
}

/// Appends an object id as a JSON string.
fn append_oid(s: &mut String, id: &ObjectId)
    ensures
        final(s)@ == old(s)@ + json_oid(*id),
{
    s.append("\"");
    append_hex(s, id);
    s.append("\"");
    assert(s@ =~= old(s)@ + json_oid(*id));
}

proof fn lemma_joined_step(parts: Seq<Seq<char>>, sep: Seq<char>, i: int)
    requires
        0 <= i < parts.len(),
    ensures
        joined(parts.subrange(0, i + 1), sep) == if i == 0 {
            parts[0]
        } else {
            joined(parts.subrange(0, i), sep) + sep + parts[i]
        },
{
    let p = parts.subrange(0, i + 1);
    assert(p.drop_last() =~= parts.subrange(0, i));
    assert(p.last() == parts[i]);
    if i == 0 {
        assert(p.len() == 1);
        assert(p[0] == parts[0]);
    }
}

/// Appends a pretty-printed array of patch names.
fn append_names(s: &mut String, names: &Vec<PatchName>)
    ensures
        final(s)@ == old(s)@ + json_names(names_of(names@)),
{
    let ghost ns = names_of(names@);
    let ghost parts = ns.map_values(|n: Seq<char>| name_item(n));
    if names.len() == 0 {
        s.append("[]");
        return;
    }
    s.append("[\n");
    let ghost start = s@;
    let mut i: usize = 0;
    while i < names.len()
        invariant
            0 <= i <= names@.len(),
            ns == names_of(names@),
            parts == ns.map_values(|n: Seq<char>| name_item(n)),
            s@ == start + joined(parts.subrange(0, i as int), ",\n"@),
        decreases names@.len() - i,
    {
        proof {
            lemma_joined_step(parts, ",\n"@, i as int);
        }
        if i > 0 {
            s.append(",\n");
        }
        s.append("    ");
        let q = json_quote(names[i].as_str());
        s.append(q.as_str());
        proof {
            assert(parts[i as int] == name_item(names@[i as int]@));
            if i == 0 {
                assert(joined(parts.subrange(0, 0), ",\n"@) =~= Seq::<char>::empty());
            }
            assert(s@ =~= start + joined(parts.subrange(0, i + 1), ",\n"@));
        }
        i = i + 1;
    }
    s.append("\n  ]");
    proof {
        assert(parts.subrange(0, i as int) =~= parts);
        assert(s@ =~= old(s)@ + json_names(ns));
    }
}

proof fn lemma_sorted_len(s: Seq<Seq<char>>)
    ensures
        sorted_names(s).len() == s.len(),
        forall|x: Seq<char>| #[trigger] sorted_names(s).contains(x) ==> s.contains(x),
    decreases s.len(),
{
    if s.len() > 0 {
        lemma_sorted_len(s.drop_last());
        lemma_insert_sorted_len(sorted_names(s.drop_last()), s.last());
        assert forall|x: Seq<char>| #[trigger] sorted_names(s).contains(x) implies s.contains(x) by {
            if x != s.last() {
                assert(sorted_names(s.drop_last()).contains(x));
                let i = choose|i: int| 0 <= i < s.drop_last().len() && s.drop_last()[i] == x;
                assert(s[i] == x);
            } else {
                assert(s[s.len() - 1] == x);
            }
        }
    }
}

proof fn lemma_insert_sorted_len(s: Seq<Seq<char>>, x: Seq<char>)
    ensures
        insert_sorted(s, x).len() == s.len() + 1,
        forall|y: Seq<char>| #[trigger] insert_sorted(s, x).contains(y) ==> s.contains(y) || y == x,
    decreases s.len(),
{
    let r = insert_sorted(s, x);
    if s.len() > 0 {
        lemma_insert_sorted_len(s.drop_first(), x);
        assert forall|y: Seq<char>| #[trigger] r.contains(y) implies s.contains(y) || y == x by {
            let i = choose|i: int| 0 <= i < r.len() && r[i] == y;
            if text_lt(x, s[0]) {
                if i > 0 {
                    assert(s[i - 1] == y);
                }
            } else if i == 0 {
                assert(s[0] == y);
            } else {
                let t = insert_sorted(s.drop_first(), x);
                assert(r[i] == t[i - 1]);
                assert(t.contains(y));
                if y != x {
                    let j = choose|j: int| 0 <= j < s.drop_first().len() && s.drop_first()[j] == y;
                    assert(s[j + 1] == y);
                }
            }
        }
    } else {
        assert forall|y: Seq<char>| #[trigger] r.contains(y) implies s.contains(y) || y == x by {
            let i = choose|i: int| 0 <= i < r.len() && r[i] == y;
        }
    }
}

/// Appends the pretty-printed patch table.
fn append_patches(s: &mut String, state: &StackState)
    requires
        state.wf(),
    ensures
        final(s)@ == old(s)@ + json_patches(state@),
{
    let unsorted = state.all_patches();
    let all = sort_names(&unsorted);
    let ghost v = state@;
    let ghost order = sorted_names(v.all());
    let ghost parts = order.map_values(|n: Seq<char>| patch_item(v, n));
    proof {
        lemma_sorted_len(v.all());
    }
    if all.len() == 0 {
        s.append("{}");
        return;
    }
    s.append("{\n");
    let ghost start = s@;
    let mut i: usize = 0;
    while i < all.len()
        invariant
            0 <= i <= all@.len(),
            state.wf(),
            v == state@,
            names_of(all@) == order,
            order == sorted_names(v.all()),
            forall|x: Seq<char>| #[trigger] order.contains(x) ==> v.all().contains(x),
            parts == order.map_values(|n: Seq<char>| patch_item(v, n)),
            s@ == start + joined(parts.subrange(0, i as int), ",\n"@),
        decreases all@.len() - i,
    {
        proof {
            lemma_joined_step(parts, ",\n"@, i as int);
            assert(names_of(all@)[i as int] == all@[i as int]@);
            assert(order.contains(all@[i as int]@));
            assert(v.all().contains(all@[i as int]@));
        }
        let d = state.patch(&all[i]);
        let commit = match d {
            Some(d) => d.commit,
            None => state.head(),
        };
        if i > 0 {
            s.append(",\n");
        }
        s.append("    ");
        let q = json_quote(all[i].as_str());
        s.append(q.as_str());
        s.append(": {\n      \"oid\": ");
        append_oid(s, &commit);
        s.append("\n    }");
        proof {
            assert(parts[i as int] == patch_item(v, all@[i as int]@));
            if i == 0 {
                assert(joined(parts.subrange(0, 0), ",\n"@) =~= Seq::<char>::empty());
            }
            assert(s@ =~= start + joined(parts.subrange(0, i + 1), ",\n"@));
        }
        i = i + 1;
    }
    s.append("\n  }");
    proof {
        assert(parts.subrange(0, i as int) =~= parts);
        assert(s@ =~= old(s)@ + json_patches(v));
    }
}

/// The text of `stack.json` for `state`: version, previous log commit,
/// head, the three sequences and the patch table, pretty-printed in a fixed
/// order.
pub fn stack_json(state: &StackState) -> (r: String)
    requires
        state.wf(),
    ensures
        r@ == stack_json_text(state@),
{
    let mut s = String::new();
    s.append("{\n  \"version\": 5,\n  \"prev\": ");
    match state.prev() {
        Some(p) => append_oid(&mut s, &p),
        None => s.append("null"),
    }
    s.append(",\n  \"head\": ");
    append_oid(&mut s, &state.head());
    s.append(",\n  \"applied\": ");
    append_names(&mut s, state.applied());
    s.append(",\n  \"unapplied\": ");
    append_names(&mut s, state.unapplied());
    s.append(",\n  \"hidden\": ");
    append_names(&mut s, state.hidden());
    s.append(",\n  \"patches\": ");
    append_patches(&mut s, state);
    s.append("\n}");
    assert(s@ =~= stack_json_text(state@));
    s
}

/// The bytes of the `stack.json` blob for `state`.
pub fn stack_json_bytes(state: &StackState) -> (r: Vec<u8>)
    requires
        state.wf(),
    ensures
        r@ == encode_utf8(stack_json_text(state@)),
{
    utf8_bytes(stack_json(state).as_str())
}

/// Two states with the same model serialize to the same `stack.json` bytes.
pub proof fn lemma_stack_json_stable(s1: &StackState, s2: &StackState)
    requires
        s1@ == s2@,
    ensures
        encode_utf8(stack_json_text(s1@)) == encode_utf8(stack_json_text(s2@)),
{
}

} // verus!
