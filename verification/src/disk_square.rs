//! Disk–square remapping strategies: the capability-keyed dispatch and
//! its input validation.
//!
//! Three interchangeable strategies map the unit disk onto the unit
//! square and back: simple radial stretching, elliptical-grid mapping,
//! and the squircular mapping. Each pair of bijections is pure
//! floating-point arithmetic over square roots, which has no place in
//! this crate; what is verified here is the boundary contract around
//! them — resolving a strategy key to a strategy, and rejecting
//! mismatched parallel coordinate arrays — so that an unknown key or a
//! malformed request never reaches the numeric kernels.
use vstd::prelude::*;

verus! {

/// Simple radial stretching between disk and square.
#[derive(Debug, Clone, Copy, PartialEq, Eq, Structural)]
pub struct SimpleStretching;

/// Elliptical-grid mapping between disk and square.
#[derive(Debug, Clone, Copy, PartialEq, Eq, Structural)]
pub struct EllipticalGrid;

/// Fernández-Guasti squircular mapping between disk and square.
#[derive(Debug, Clone, Copy, PartialEq, Eq, Structural)]
pub struct FGSquircular;

/// The closed set of disk–square strategies, selected by key at the
/// call boundary.
#[derive(Debug, Clone, Copy, PartialEq, Eq, Structural)]
pub enum MapStrategy {
    Simple,
    Elliptical,
    Squircular,
}

impl SimpleStretching {
    /// The strategy tag this marker stands for.
    pub fn strategy(&self) -> (r: MapStrategy)
        ensures
            r == MapStrategy::Simple,
    {
        MapStrategy::Simple
    }
}

impl EllipticalGrid {
    /// The strategy tag this marker stands for.
    pub fn strategy(&self) -> (r: MapStrategy)
        ensures
            r == MapStrategy::Elliptical,
    {
        MapStrategy::Elliptical
    }
}

impl FGSquircular {
    /// The strategy tag this marker stands for.
    pub fn strategy(&self) -> (r: MapStrategy)
        ensures
            r == MapStrategy::Squircular,
    {
        MapStrategy::Squircular
    }
}

/// A remapping request rejected at the boundary.
#[derive(Debug, Clone, Copy, PartialEq, Eq, Structural)]
pub enum MapError {
    /// The strategy key names none of the known strategies: a fatal
    /// configuration error.
    UnknownKey,
    /// The two parallel coordinate arrays differ in length: a fatal
    /// input error.
    LengthMismatch,
}

/// Character-exact string comparison.
fn str_eq_chars(s: &str, t: &str) -> (r: bool)
    ensures
        r == (s@ == t@),
{
    let sl = s.unicode_len();
    let tl = t.unicode_len();
    if sl != tl {
        proof {
            assert(s@.len() != t@.len());
        }
        return false;
    }
    let mut i: usize = 0;
    while i < sl
        invariant
            sl == s@.len(),
            sl == t@.len(),
            i <= sl,
            forall|k: int| 0 <= k < i ==> s@[k] == t@[k],
        decreases sl - i,
    {
        if s.get_char(i) != t.get_char(i) {
            proof {
                assert(s@[i as int] != t@[i as int]);
            }
            return false;
        }
        i = i + 1;
    }
    proof {
        assert(s@ =~= t@);
    }
    true
}

/// Resolves a strategy key: exactly `"simple"`, `"elliptical"` and
/// `"squircular"` name strategies, and any other key is refused.
pub fn parse_strategy(method: &str) -> (r: Option<MapStrategy>)
    ensures
        r == Some(MapStrategy::Simple) <==> method@ == "simple"@,
        r == Some(MapStrategy::Elliptical) <==> method@ == "elliptical"@,
        r == Some(MapStrategy::Squircular) <==> method@ == "squircular"@,
        r matches Option::None <==> (method@ != "simple"@ && method@ != "elliptical"@ && method@
            != "squircular"@),
    {
    proof {
        reveal_strlit("simple");
        reveal_strlit("elliptical");
        reveal_strlit("squircular");
        assert("simple"@.len() == 6 && "elliptical"@.len() == 10 && "squircular"@.len() == 10);
        assert("elliptical"@[0] == 'e' && "squircular"@[0] == 's');
        assert("simple"@ != "elliptical"@ && "simple"@ != "squircular"@ && "elliptical"@
            != "squircular"@);
    }
    if str_eq_chars(method, "simple") {
        Some(MapStrategy::Simple)
    } else if str_eq_chars(method, "elliptical") {
        Some(MapStrategy::Elliptical)
    } else if str_eq_chars(method, "squircular") {
        Some(MapStrategy::Squircular)
    } else {
        None
    }
}

/// Validates one remapping request: the parallel `u`/`v` arrays must
/// have equal lengths and the key must name a known strategy. Returns
/// the resolved strategy exactly when both hold, and the matching error
/// otherwise — a mismatch is reported before an unknown key, as the
/// request is unusable either way.
pub fn check_mapping_request(method: &str, us_len: usize, vs_len: usize) -> (r: Result<
    MapStrategy,
    MapError,
>)
    ensures
        r matches Result::Ok(s) ==> us_len == vs_len && (s == MapStrategy::Simple <==> method@
            == "simple"@) && (s == MapStrategy::Elliptical <==> method@ == "elliptical"@) && (s
            == MapStrategy::Squircular <==> method@ == "squircular"@),
        r == Err::<MapStrategy, MapError>(MapError::LengthMismatch) <==> us_len != vs_len,
        r == Err::<MapStrategy, MapError>(MapError::UnknownKey) <==> (us_len == vs_len && method@
            != "simple"@ && method@ != "elliptical"@ && method@ != "squircular"@),
{
    if us_len != vs_len {
        return Err(MapError::LengthMismatch);
    }
    match parse_strategy(method) {
        Some(s) => Ok(s),
        None => Err(MapError::UnknownKey),
    }
}

} // verus!
