//! The process's argument and environment vectors, as the kernel laid
//! them out. The caller reads the NUL-terminated strings off the stack;
//! this module looks things up in them.
use vstd::prelude::*;

verus! {

/// How many environment entries a lookup reads before giving up.
pub const MAX_ENV_ENTRIES: usize = 4097;
/// The longest value a lookup returns.
pub const MAX_ENV_VALUE: usize = 16384;

/// `entry` reads `KEY=...` for this `key`.
pub open spec fn entry_matches(entry: Seq<u8>, key: Seq<u8>) -> bool {
    &&& entry.len() > key.len()
    &&& entry.subrange(0, key.len() as int) == key
    &&& entry[key.len() as int] == 61
}

/// The value of `entry` after `key=`, cut at `MAX_ENV_VALUE` bytes.
pub open spec fn entry_value(entry: Seq<u8>, key: Seq<u8>) -> Seq<u8> {
    let v = entry.subrange(key.len() + 1int, entry.len() as int);
    if v.len() > MAX_ENV_VALUE {
        v.subrange(0, MAX_ENV_VALUE as int)
    } else {
        v
    }
}

/// The value of the first of the entries `i..` (of the first
/// `MAX_ENV_ENTRIES`) that reads `key=...`.
pub open spec fn env_find(env: Seq<Seq<u8>>, key: Seq<u8>, i: int) -> Option<Seq<u8>>
    decreases env.len() - i,
{
    if i < 0 || i >= env.len() || i >= MAX_ENV_ENTRIES {
        None
    } else if entry_matches(env[i], key) {
        Some(entry_value(env[i], key))
    } else {
        env_find(env, key, i + 1)
    }
}

/// The entries as byte strings.
pub open spec fn entries(env: Seq<Vec<u8>>) -> Seq<Seq<u8>> {
    env.map_values(|e: Vec<u8>| e@)
}

/// Looks `key` up in the environment entries (each without its NUL):
/// the value of the first entry `key=value`, among the first
/// `MAX_ENV_ENTRIES`, cut at `MAX_ENV_VALUE` bytes.
pub fn envp_lookup(env: &[Vec<u8>], key: &[u8]) -> (r: Option<Vec<u8>>)
    ensures
        match env_find(entries(env@), key@, 0) {
            Some(v) => r matches Some(rv) && rv@ == v,
            None => r is None,
        },
{
    let mut i: usize = 0;
    while i < env.len()
        invariant
            i <= env@.len(),
            i <= MAX_ENV_ENTRIES,
            env_find(entries(env@), key@, 0) == env_find(entries(env@), key@, i as int),
        decreases env@.len() - i,
    {
        if i >= MAX_ENV_ENTRIES {
            return None;
        }
        let entry = &env[i];
        assert(entries(env@)[i as int] == entry@);
        let mut j: usize = 0;
        while j < key.len() && j < entry.len() && entry[j] == key[j]
            invariant
                j <= key@.len(),
                j <= entry@.len(),
                forall|k: int| 0 <= k < j ==> entry@[k] == key@[k],
            decreases key@.len() - j,
        {
            j = j + 1;
        }
        if j == key.len() && j < entry.len() && entry[j] == 61 {
            assert(entry@.subrange(0, key@.len() as int) =~= key@);
            let mut v: Vec<u8> = Vec::new();
            let mut k = j + 1;
            while k < entry.len() && k - (j + 1) < MAX_ENV_VALUE
                invariant
                    j + 1 <= k <= entry@.len(),
                    k - (j + 1) <= MAX_ENV_VALUE,
                    v@ == entry@.subrange(j + 1, k as int),
                decreases entry@.len() - k,
            {
                v.push(entry[k]);
                k = k + 1;
                assert(v@ =~= entry@.subrange(j + 1, k as int));
            }
            assert(v@ =~= entry_value(entry@, key@));
            return Some(v);
        }
        assert(!entry_matches(entry@, key@)) by {
            if entry_matches(entry@, key@) {
                if j < key@.len() {
                    assert(entry@.subrange(0, key@.len() as int)[j as int] == key@[j as int]);
                }
            }
        }
        i = i + 1;
    }
    None
}

} // verus!
