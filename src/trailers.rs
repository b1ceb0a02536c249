use vstd::prelude::*;
use vstd::string::*;

use crate::editor::opt_view;

verus! {

/// A trailer token and its value, as text.
pub type TrailerView = (Seq<char>, Seq<char>);

/// The acknowledgement token.
pub open spec fn acked_by() -> Seq<char> {
    "Acked-by"@
}

/// The sign-off token.
pub open spec fn signed_off_by() -> Seq<char> {
    "Signed-off-by"@
}

/// The review token.
pub open spec fn reviewed_by() -> Seq<char> {
    "Reviewed-by"@
}

/// `s` with `t` appended when `c` holds.
pub open spec fn push_if(s: Seq<TrailerView>, c: bool, t: TrailerView) -> Seq<TrailerView> {
    if c {
        s.push(t)
    } else {
        s
    }
}

/// The trailers to append, in order: the explicit acked, signed-off and
/// reviewed values, then the same tokens with the default identity where
/// their flags are set, then the auto-sign token with the default identity.
pub open spec fn trailer_seq(
    ack_by: Option<Seq<char>>,
    sign_by: Option<Seq<char>>,
    review_by: Option<Seq<char>>,
    sign: bool,
    ack: bool,
    review: bool,
    default_by: Seq<char>,
    autosign: Option<Seq<char>>,
) -> Seq<TrailerView> {
    let s0 = Seq::<TrailerView>::empty();
    let s1 = push_if(s0, ack_by is Some, (acked_by(), ack_by->Some_0));
    let s2 = push_if(s1, sign_by is Some, (signed_off_by(), sign_by->Some_0));
    let s3 = push_if(s2, review_by is Some, (reviewed_by(), review_by->Some_0));
    let s4 = push_if(s3, sign, (signed_off_by(), default_by));
    let s5 = push_if(s4, ack, (acked_by(), default_by));
    let s6 = push_if(s5, review, (reviewed_by(), default_by));
    push_if(s6, autosign is Some, (autosign->Some_0, default_by))
}

/// The texts of a list of trailers.
pub open spec fn trailers_view(v: Seq<(String, String)>) -> Seq<TrailerView> {
    v.map_values(|p: (String, String)| (p.0@, p.1@))
}

/// Appends one trailer.
fn push_trailer(v: &mut Vec<(String, String)>, token: &str, value: &String)
    ensures
        trailers_view(final(v)@) == trailers_view(old(v)@).push((token@, value@)),
{
    v.push((token.to_owned(), value.clone()));
    assert(trailers_view(v@) =~= trailers_view(old(v)@).push((token@, value@)));
}

/// Lists the trailers to append to a message.
pub fn trailer_list(
    ack_by: Option<String>,
    sign_by: Option<String>,
    review_by: Option<String>,
    sign: bool,
    ack: bool,
    review: bool,
    default_by: String,
    autosign: Option<String>,
) -> (r: Vec<(String, String)>)
    ensures
        trailers_view(r@) == trailer_seq(
            opt_view(ack_by),
            opt_view(sign_by),
            opt_view(review_by),
            sign,
            ack,
            review,
            default_by@,
            opt_view(autosign),
        ),
{
    let mut v: Vec<(String, String)> = Vec::new();
    assert(trailers_view(v@) =~= Seq::<TrailerView>::empty());
    if let Some(by) = &ack_by {
        push_trailer(&mut v, "Acked-by", by);
    }
    if let Some(by) = &sign_by {
        push_trailer(&mut v, "Signed-off-by", by);
    }
    if let Some(by) = &review_by {
        push_trailer(&mut v, "Reviewed-by", by);
    }
    if sign {
        push_trailer(&mut v, "Signed-off-by", &default_by);
    }
    if ack {
        push_trailer(&mut v, "Acked-by", &default_by);
    }
    if review {
        push_trailer(&mut v, "Reviewed-by", &default_by);
    }
    if let Some(token) = &autosign {
        push_trailer(&mut v, token.as_str(), &default_by);
    }
    v
}

/// The identity used in trailers: `name <email>`.
pub fn default_identity(name: &str, email: &str) -> (r: String)
    ensures
        r@ == name@ + " <"@ + email@ + ">"@,
{
    let mut s = String::new();
    s.append(name);
    s.append(" <");
    s.append(email);
    s.append(">");
    assert(s@ =~= name@ + " <"@ + email@ + ">"@);
    s
}

/// The argument that asks `git interpret-trailers` for one trailer.
pub fn trailer_arg(token: &str, value: &str) -> (r: String)
    ensures
        r@ == "--trailer="@ + token@ + "="@ + value@,
{
    let mut s = String::new();
    s.append("--trailer=");
    s.append(token);
    s.append("=");
    s.append(value);
    assert(s@ =~= "--trailer="@ + token@ + "="@ + value@);
    s
}

} // verus!
