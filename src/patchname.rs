use vstd::prelude::*;
use vstd::string::*;

use crate::error::Error;

verus! {

/// A character that may not appear anywhere in a patch name: control
/// characters (C0, DEL and C1), Unicode white space and path separators.
pub open spec fn is_forbidden_char(c: char) -> bool {
    let u = c as u32;
    ||| u < 0x21
    ||| 0x7f <= u <= 0xa0
    ||| u == 0x1680
    ||| 0x2000 <= u <= 0x200a
    ||| u == 0x2028 || u == 0x2029 || u == 0x202f || u == 0x205f || u == 0x3000
    ||| c == '/' || c == '\\'
}

/// Executable form of `is_forbidden_char`.
fn forbidden_char(c: char) -> (r: bool)
    ensures
        r == is_forbidden_char(c),
{
    let u = c as u32;
    u < 0x21 || (0x7f <= u && u <= 0xa0) || u == 0x1680 || (0x2000 <= u && u <= 0x200a)
        || u == 0x2028 || u == 0x2029 || u == 0x202f || u == 0x205f || u == 0x3000 || c == '/'
        || c == '\\'
}

/// Whether `s` holds two consecutive dots starting at position `i`.
pub open spec fn dot_dot_at(s: Seq<char>, i: int) -> bool {
    0 <= i && i + 1 < s.len() && s[i] == '.' && s[i + 1] == '.'
}

/// The rule a patch name obeys: non-empty, no leading `-`, no forbidden
/// character and no `..`. No name is reserved beyond these rules.
pub open spec fn valid_patch_name(s: Seq<char>) -> bool {
    &&& s.len() > 0
    &&& s[0] != '-'
    &&& forall|i: int| 0 <= i < s.len() ==> !is_forbidden_char(#[trigger] s[i])
    &&& forall|i: int| !#[trigger] dot_dot_at(s, i)
}

/// A validated identifier of a patch within a stack.
#[derive(Debug)]
pub struct PatchName {
    name: String,
}

impl View for PatchName {
    type V = Seq<char>;

    closed spec fn view(&self) -> Seq<char> {
        self.name@
    }
}

impl PatchName {
    /// A patch name always obeys the naming rule.
    #[verifier::type_invariant]
    spec fn inv(&self) -> bool {
        valid_patch_name(self.name@)
    }

    /// Checks `s` against the naming rule and wraps it.
    pub fn parse(s: &str) -> (r: Result<PatchName, Error>)
        ensures
            valid_patch_name(s@) <==> r.is_ok(),
            r is Ok ==> r->Ok_0@ == s@,
            r is Err ==> r->Err_0 == Error::InvalidPatchName,
    {
        let n = s.unicode_len();
        if n == 0 {
            return Err(Error::InvalidPatchName);
        }
        if s.get_char(0) == '-' {
            return Err(Error::InvalidPatchName);
        }
        let mut i: usize = 0;
        while i < n
            invariant
                n == s@.len(),
                0 <= i <= n,
                forall|j: int| 0 <= j < i ==> !is_forbidden_char(#[trigger] s@[j]),
                forall|j: int| 0 <= j && j + 1 < i ==> !#[trigger] dot_dot_at(s@, j),
            decreases n - i,
        {
            let c = s.get_char(i);
            if forbidden_char(c) {
                assert(is_forbidden_char(s@[i as int]));
                return Err(Error::InvalidPatchName);
            }
            if i > 0 && c == '.' && s.get_char(i - 1) == '.' {
                assert(dot_dot_at(s@, i - 1));
                return Err(Error::InvalidPatchName);
            }
            i = i + 1;
        }
        assert forall|j: int| !#[trigger] dot_dot_at(s@, j) by {
            if 0 <= j && j + 1 < n {
                assert(j + 1 < i);
            }
        }
        Ok(PatchName { name: s.to_owned() })
    }

    /// The name as text.
    pub fn as_str(&self) -> (r: &str)
        ensures
            r@ == self@,
            valid_patch_name(r@),
    {
        proof {
            use_type_invariant(self);
        }
        self.name.as_str()
    }

    /// A copy of the name.
    pub fn duplicate(&self) -> (r: PatchName)
        ensures
            r@ == self@,
    {
        proof {
            use_type_invariant(self);
        }
        PatchName { name: self.name.clone() }
    }

    /// Whether two names are equal.
    pub fn same(&self, other: &PatchName) -> (r: bool)
        ensures
            r == (self@ == other@),
    {
        self.name == other.name
    }
}

/// The texts of a sequence of patch names.
pub open spec fn names_of(v: Seq<PatchName>) -> Seq<Seq<char>> {
    v.map_values(|p: PatchName| p@)
}

/// Lexicographic order on texts, character by character.
pub open spec fn text_lt(a: Seq<char>, b: Seq<char>) -> bool
    decreases a.len(),
{
    if a.len() == 0 {
        b.len() > 0
    } else if b.len() == 0 {
        false
    } else if a[0] != b[0] {
        (a[0] as u32) < (b[0] as u32)
    } else {
        text_lt(a.drop_first(), b.drop_first())
    }
}

/// `x` placed into the sorted sequence `s` before the first name it
/// precedes.
pub open spec fn insert_sorted(s: Seq<Seq<char>>, x: Seq<char>) -> Seq<Seq<char>>
    decreases s.len(),
{
    if s.len() == 0 {
        seq![x]
    } else if text_lt(x, s[0]) {
        seq![x] + s
    } else {
        seq![s[0]] + insert_sorted(s.drop_first(), x)
    }
}

/// The names of `s` in lexicographic order.
pub open spec fn sorted_names(s: Seq<Seq<char>>) -> Seq<Seq<char>>
    decreases s.len(),
{
    if s.len() == 0 {
        Seq::empty()
    } else {
        insert_sorted(sorted_names(s.drop_last()), s.last())
    }
}

proof fn lemma_insert_sorted_at(s: Seq<Seq<char>>, x: Seq<char>, p: int)
    requires
        0 <= p <= s.len(),
        forall|j: int| 0 <= j < p ==> !text_lt(x, #[trigger] s[j]),
        p < s.len() ==> text_lt(x, s[p]),
    ensures
        insert_sorted(s, x) == s.insert(p, x),
    decreases p,
{
    if s.len() == 0 {
        assert(s.insert(p, x) =~= seq![x]);
    } else if p == 0 {
        assert(s.insert(0, x) =~= seq![x] + s);
    } else {
        let t = s.drop_first();
        assert forall|j: int| 0 <= j < p - 1 implies !text_lt(x, #[trigger] t[j]) by {
            assert(t[j] == s[j + 1]);
        }
        lemma_insert_sorted_at(t, x, p - 1);
        assert(s.insert(p, x) =~= seq![s[0]] + t.insert(p - 1, x));
    }
}

/// Whether `a` comes before `b` in lexicographic order.
pub fn text_less(a: &str, b: &str) -> (r: bool)
    ensures
        r == text_lt(a@, b@),
{
    let na = a.unicode_len();
    let nb = b.unicode_len();
    let mut i: usize = 0;
    assert(a@.skip(0) =~= a@);
    assert(b@.skip(0) =~= b@);
    while i < na && i < nb
        invariant
            na == a@.len(),
            nb == b@.len(),
            0 <= i <= na,
            i <= nb,
            text_lt(a@, b@) == text_lt(a@.skip(i as int), b@.skip(i as int)),
        decreases na - i,
    {
        let ca = a.get_char(i);
        let cb = b.get_char(i);
        proof {
            assert(a@.skip(i as int)[0] == ca);
            assert(b@.skip(i as int)[0] == cb);
            assert(a@.skip(i as int).drop_first() =~= a@.skip(i + 1));
            assert(b@.skip(i as int).drop_first() =~= b@.skip(i + 1));
        }
        if ca != cb {
            return (ca as u32) < (cb as u32);
        }
        i = i + 1;
    }
    i == na && i < nb
}

/// The names of `v` in lexicographic order.
pub fn sort_names(v: &Vec<PatchName>) -> (r: Vec<PatchName>)
    ensures
        names_of(r@) == sorted_names(names_of(v@)),
{
    let ghost all = names_of(v@);
    let mut r: Vec<PatchName> = Vec::new();
    let mut i: usize = 0;
    while i < v.len()
        invariant
            0 <= i <= v@.len(),
            all == names_of(v@),
            names_of(r@) == sorted_names(all.subrange(0, i as int)),
        decreases v@.len() - i,
    {
        let x = v[i].duplicate();
        let ghost rs = names_of(r@);
        let mut p: usize = 0;
        while p < r.len() && !text_less(x.as_str(), r[p].as_str())
            invariant
                0 <= p <= r@.len(),
                rs == names_of(r@),
                forall|j: int| 0 <= j < p ==> !text_lt(x@, #[trigger] rs[j]),
            decreases r@.len() - p,
        {
            p = p + 1;
        }
        proof {
            if p < r.len() {
                assert(text_lt(x@, rs[p as int]));
            }
            lemma_insert_sorted_at(rs, x@, p as int);
            let pre = all.subrange(0, i + 1);
            assert(pre.drop_last() =~= all.subrange(0, i as int));
            assert(pre.last() == x@);
        }
        r.insert(p, x);
        proof {
            assert(names_of(r@) =~= rs.insert(p as int, x@));
        }
        i = i + 1;
    }
    proof {
        assert(all.subrange(0, i as int) =~= all);
    }
    r
}

} // verus!
