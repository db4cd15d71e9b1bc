//! The 128-bit identifier that names clients, subscriptions and
//! publications, with the trusted bridge to the `uuid` crate for drawing
//! fresh identifiers and for the textual form.

use vstd::prelude::*;

verus! {

/// A 128-bit identifier, held as two 64-bit halves so that equality and
/// hashing are structural.
#[derive(Clone, Copy, Debug, Hash, PartialEq, Eq, Structural)]
pub struct Uid {
    pub hi: u64,
    pub lo: u64,
}

impl Uid {
    pub fn new(hi: u64, lo: u64) -> (r: Uid)
        ensures
            r == (Uid { hi, lo }),
    {
        Uid { hi, lo }
    }
}

/// The index of the first occurrence of `x` in `v`, if any.
pub fn find_uid(v: &Vec<Uid>, x: &Uid) -> (r: Option<usize>)
    ensures
        r matches Some(i) ==> i < v@.len() && v@[i as int] == *x && (forall|j: int|
            0 <= j < i ==> v@[j] != *x),
        r is None ==> !v@.contains(*x),
        r is Some <==> v@.contains(*x),
{
    let mut i: usize = 0;
    while i < v.len()
        invariant
            i <= v@.len(),
            forall|j: int| 0 <= j < i ==> v@[j] != *x,
        decreases v@.len() - i,
    {
        if v[i] == *x {
            return Some(i);
        }
        i += 1;
    }
    proof {
        if v@.contains(*x) {
            let j = choose|j: int| 0 <= j < v@.len() && v@[j] == *x;
        }
    }
    None
}

/// The hyphenated textual form of an identifier, as the `uuid` crate
/// renders it. It depends on the identifier alone.
pub uninterp spec fn uid_text(u: Uid) -> Seq<char>;

/// What `uuid::Uuid::parse_str` accepts, and the identifier it yields.
/// It depends on the input characters alone.
pub uninterp spec fn parsed_uid(s: Seq<char>) -> Option<Uid>;

/// Relies on `uuid::Uuid::new_v4`: a randomly drawn identifier, of which
/// nothing can be promised.
#[verifier::external_body]
pub(crate) fn fresh_uid() -> Uid {
    let u = uuid::Uuid::new_v4().as_u128();
    Uid { hi: (u >> 64) as u64, lo: u as u64 }
}

/// Relies on `uuid::Uuid::to_string` (via the hyphenated `Display` form):
/// the rendering depends on the identifier's bits alone.
#[verifier::external_body]
pub(crate) fn uid_to_string(u: &Uid) -> (r: String)
    ensures
        r@ == uid_text(*u),
{
    let v = ((u.hi as u128) << 64) | (u.lo as u128);
    uuid::Uuid::from_u128(v).to_string()
}

/// Relies on `uuid::Uuid::parse_str`: the outcome depends on the input
/// characters alone; on failure the error's textual form is returned.
#[verifier::external_body]
pub(crate) fn parse_uid(s: &str) -> (r: Result<Uid, String>)
    ensures
        r is Ok <==> parsed_uid(s@) is Some,
        r matches Ok(u) ==> parsed_uid(s@) == Some(u),
{
    match uuid::Uuid::parse_str(s) {
        Ok(v) => {
            let b = v.as_u128();
            Ok(Uid { hi: (b >> 64) as u64, lo: b as u64 })
        }
        Err(e) => Err(format!("{}", e)),
    }
}

} // verus!
