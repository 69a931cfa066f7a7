use vstd::prelude::*;
use crate::solution_mapping::SolutionMappings;

verus! {

/// Relies on uuid: `Uuid::new_v4` draws a fresh random identifier and its
/// `Display` rendering is the 36-character hyphenated form.  The
/// identifier is random, so nothing is assumed beyond its length.
#[verifier::external_body]
fn random_uuid_string() -> (r: String)
    ensures
        r@.len() == 36,
{
    uuid::Uuid::new_v4().to_string()
}

/// Draws a random identifier and, should it collide with an existing
/// column name, extends it until it is longer than every existing name:
/// the result never names a column of `sm`.
pub fn fresh_column_name(sm: &SolutionMappings) -> (r: String)
    ensures
        !sm.has_col(r@),
{
    let mut name = random_uuid_string();
    // the largest existing name length
    let mut m: usize = 0;
    let mut j: usize = 0;
    while j < sm.names.len()
        invariant
            0 <= j <= sm.width(),
            forall|k: int| 0 <= k < j ==> #[trigger] sm.name(k).len() <= m,
        decreases sm.width() - j,
    {
        let ln: usize = sm.names[j].as_str().unicode_len();
        if ln > m {
            m = ln;
        }
        proof {
            assert(sm.name(j as int).len() <= m);
        }
        j = j + 1;
    }
    // extend until strictly longer than every name
    proof {
        reveal_strlit("_");
    }
    while name.as_str().unicode_len() <= m
        invariant
            forall|k: int| 0 <= k < sm.width() ==> #[trigger] sm.name(k).len() <= m,
        decreases m + 1 - name@.len(),
    {
        proof {
            reveal_strlit("_");
        }
        name.append("_");
    }
    proof {
        assert forall|k: int| 0 <= k < sm.width() implies #[trigger] sm.name(k) != name@ by {
            assert(sm.name(k).len() <= m);
            assert(name@.len() > m);
        }
        if sm.has_col(name@) {
            let k = choose|k: int| 0 <= k < sm.width() && sm.name(k) == name@;
        }
    }
    name
}

} // verus!
