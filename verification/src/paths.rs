//! Turning stored file paths into candidate identifiers: a key is the part of
//! a path strictly between the store's directory prefix and the trailing
//! ".gpg" extension.

use vstd::prelude::*;

verus! {

/// The file-name suffix that marks a stored key.
pub open spec fn gpg_suffix() -> Seq<char> {
    seq!['.', 'g', 'p', 'g']
}

/// Extracts the key named by `path`: the characters strictly between the
/// store `prefix` and the trailing ".gpg". Returns `None` exactly when no
/// such decomposition of `path` exists.
#[verifier::loop_isolation(false)]
pub fn key_from_path(path: &Vec<char>, prefix: &Vec<char>) -> (r: Option<Vec<char>>)
    ensures
        match r {
            Some(k) => path@ == prefix@ + k@ + gpg_suffix(),
            None => forall|k: Seq<char>| path@ != prefix@ + k + gpg_suffix(),
        },
{
    let n = path.len();
    let m = prefix.len();
    if n < m || n - m < 4 {
        proof {
            assert forall|k: Seq<char>| path@ != prefix@ + k + gpg_suffix() by {
                assert((prefix@ + k + gpg_suffix()).len() == m + k.len() + 4);
            }
        }
        return None;
    }
    let mut t: usize = 0;
    while t < m
        invariant
            t <= m,
            forall|a: int| 0 <= a < t ==> path@[a] == prefix@[a],
        decreases m - t,
    {
        if path[t] != prefix[t] {
            proof {
                assert forall|k: Seq<char>| path@ != prefix@ + k + gpg_suffix() by {
                    if path@ == prefix@ + k + gpg_suffix() {
                        assert(path@[t as int] == (prefix@ + k + gpg_suffix())[t as int]);
                    }
                }
            }
            return None;
        }
        t = t + 1;
    }
    if path[n - 4] != '.' || path[n - 3] != 'g' || path[n - 2] != 'p' || path[n - 1] != 'g' {
        proof {
            assert forall|k: Seq<char>| path@ != prefix@ + k + gpg_suffix() by {
                if path@ == prefix@ + k + gpg_suffix() {
                    let w = prefix@ + k + gpg_suffix();
                    assert(k.len() == n - m - 4);
                    assert(w[n - 4] == gpg_suffix()[0]);
                    assert(w[n - 3] == gpg_suffix()[1]);
                    assert(w[n - 2] == gpg_suffix()[2]);
                    assert(w[n - 1] == gpg_suffix()[3]);
                }
            }
        }
        return None;
    }
    let mut key: Vec<char> = Vec::new();
    let mut t: usize = m;
    while t < n - 4
        invariant
            m <= t <= n - 4,
            key@.len() == t - m,
            forall|a: int| 0 <= a < key@.len() ==> key@[a] == path@[m + a],
        decreases n - t,
    {
        key.push(path[t]);
        t = t + 1;
    }
    proof {
        assert(path@ =~= prefix@ + key@ + gpg_suffix());
    }
    Some(key)
}

} // verus!
