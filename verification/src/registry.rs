use vstd::prelude::*;

verus! {

use crate::asciitext::str_eq;
use crate::b64::{b64_of, b64d};

/// A public key entry of the keystore: key id and verification key, the
/// key URL-safe base64 encoded.
#[derive(Debug, Clone)]
pub struct PubKeyEntry {
    pub kid: String,
    pub vk_b64: String,
}

/// A private key record: key id, signing key and verification key, both
/// URL-safe base64 encoded.
#[derive(Debug, Clone)]
pub struct PrivKeyJson {
    pub kid: String,
    pub sk_b64: String,
    pub vk_b64: String,
}

/// The key registered under `kid` among `es`, the last entry winning, as
/// in a map built by repeated insertion.
pub open spec fn find_key(es: Seq<(String, Vec<u8>)>, kid: Seq<char>) -> Option<Seq<u8>>
    decreases es.len(),
{
    if es.len() == 0 {
        None
    } else if es.last().0@ == kid {
        Some(es.last().1@)
    } else {
        find_key(es.drop_last(), kid)
    }
}

/// An immutable mapping from key id to a verification key, built once at
/// service start and read-only thereafter.
pub struct KeyRegistry {
    entries: Vec<(String, Vec<u8>)>,
}

impl KeyRegistry {
    /// The verification key registered under `kid`.
    pub closed spec fn find(self, kid: Seq<char>) -> Option<Seq<u8>> {
        find_key(self.entries@, kid)
    }

    /// How many entries the registry holds.
    pub closed spec fn spec_len(self) -> nat {
        self.entries@.len()
    }

    pub fn new() -> (r: KeyRegistry)
        ensures
            forall|kid: Seq<char>| r.find(kid) is None,
            r.spec_len() == 0,
    {
        KeyRegistry { entries: Vec::new() }
    }

    /// Registers `vk` under `kid`; a later entry for the same id wins.
    pub fn add(&mut self, kid: String, vk: Vec<u8>)
        ensures
            final(self).find(kid@) == Some::<Seq<u8>>(vk@),
            forall|other: Seq<char>|
                other != kid@ ==> final(self).find(other) == old(self).find(other),
            final(self).spec_len() == old(self).spec_len() + 1,
    {
        let ghost old_entries = self.entries@;
        let ghost kv = kid@;
        let ghost vv = vk@;
        self.entries.push((kid, vk));
        proof {
            assert(self.entries@.last().0@ == kv);
            assert(self.entries@.drop_last() =~= old_entries);
        }
    }

    /// Looks a key id up.
    pub fn lookup(&self, kid: &str) -> (r: Option<Vec<u8>>)
        ensures
            r is Some <==> self.find(kid@) is Some,
            r matches Some(v) ==> self.find(kid@) == Some(v@),
    {
        let n = self.entries.len();
        let mut i: usize = n;
        proof {
            assert(self.entries@.subrange(0, n as int) =~= self.entries@);
        }
        while i > 0
            invariant
                0 <= i <= n,
                n == self.entries@.len(),
                find_key(self.entries@, kid@) == find_key(
                    self.entries@.subrange(0, i as int),
                    kid@,
                ),
            decreases i,
        {
            i = i - 1;
            proof {
                assert(self.entries@.subrange(0, i + 1).last() == self.entries@[i as int]);
                assert(self.entries@.subrange(0, i + 1).drop_last() =~= self.entries@.subrange(
                    0,
                    i as int,
                ));
            }
            if str_eq(self.entries[i].0.as_str(), kid) {
                return Some(self.entries[i].1.clone());
            }
        }
        proof {
            assert(self.entries@.subrange(0, 0).len() == 0);
        }
        None
    }

    /// Builds a registry from keystore entries: each verification key must
    /// decode from URL-safe base64 to exactly 32 bytes, else the whole
    /// load fails, as a service must not start with a bad keystore. For
    /// the last entry under each key id, the registry holds its decoded
    /// key.
    pub fn from_entries(entries: &Vec<PubKeyEntry>) -> (r: Option<KeyRegistry>)
        ensures
            r matches Some(reg) ==> reg.spec_len() == entries@.len() && loaded_upto(
                entries@,
                reg,
                entries@.len() as int,
            ),
            r is None ==> (exists|i: int|
                0 <= i < entries@.len() && (forall|bb: Seq<u8>|
                    vstd::utf8::encode_utf8((#[trigger] entries@[i]).vk_b64@) == b64_of(bb)
                        ==> bb.len() != 32)),
    {
        let mut reg = KeyRegistry::new();
        let mut i: usize = 0;
        let n = entries.len();
        while i < n
            invariant
                0 <= i <= n,
                n == entries@.len(),
                reg.spec_len() == i,
                loaded_upto(entries@, reg, i as int),
            decreases n - i,
        {
            let e = &entries[i];
            let ghost ebytes = vstd::utf8::encode_utf8(entries@[i as int].vk_b64@);
            let vkb = match b64d(e.vk_b64.as_str().as_bytes()) {
                Some(v) => v,
                None => {
                    proof {
                        assert(forall|bb: Seq<u8>| ebytes != b64_of(bb));
                        assert(forall|bb: Seq<u8>|
                            vstd::utf8::encode_utf8(
                                entries@[i as int].vk_b64@,
                            ) == b64_of(bb) ==> bb.len() != 32);
                    }
                    return None;
                },
            };
            if vkb.len() != 32 {
                proof {
                    assert(ebytes == b64_of(vkb@));
                    assert(forall|bb: Seq<u8>| ebytes == b64_of(bb) ==> bb == vkb@);
                    assert(forall|bb: Seq<u8>|
                        vstd::utf8::encode_utf8(entries@[i as int].vk_b64@) == b64_of(bb)
                            ==> bb.len() != 32);
                }
                return None;
            }
            let ghost old_reg = reg;
            let ghost vkv = vkb@;
            reg.add(e.kid.clone(), vkb);
            i = i + 1;
            proof {
                let iv = i as int;
                assert forall|k: int|
                    0 <= k < iv && no_later_dup(entries@, k, iv) implies (exists|bb: Seq<u8>|
                    vstd::utf8::encode_utf8((#[trigger] entries@[k]).vk_b64@) == b64_of(bb)
                        && bb.len() == 32 && reg.find(entries@[k].kid@) == Some(bb)) by {
                    if k == iv - 1 {
                        assert(vstd::utf8::encode_utf8(entries@[k].vk_b64@) == b64_of(vkv));
                        assert(reg.find(entries@[k].kid@) == Some(vkv));
                    } else {
                        assert(no_later_dup(entries@, k, iv - 1));
                        assert(entries@[iv - 1].kid@ != entries@[k].kid@);
                        assert(reg.find(entries@[k].kid@) == old_reg.find(entries@[k].kid@));
                    }
                }
                assert(loaded_upto(entries@, reg, iv));
            }
        }
        proof {
            assert(loaded_upto(entries@, reg, entries@.len() as int));
        }
        Some(reg)
    }
}

/// True where, for the last entry under each key id among the first
/// `upto` entries, the registry holds that entry's decoded key.
pub open spec fn loaded_upto(es: Seq<PubKeyEntry>, reg: KeyRegistry, upto: int) -> bool {
    forall|k: int|
        0 <= k < upto && no_later_dup(es, k, upto) ==> (exists|bb: Seq<u8>|
            vstd::utf8::encode_utf8((#[trigger] es[k]).vk_b64@) == b64_of(bb) && bb.len() == 32
                && reg.find(es[k].kid@) == Some(bb))
}

/// True where no entry in `[k, upto)` after `k` carries the same key id.
pub open spec fn no_later_dup(es: Seq<PubKeyEntry>, k: int, upto: int) -> bool {
    forall|k2: int| k < k2 < upto ==> (#[trigger] es[k2]).kid@ != es[k].kid@
}

/// True where no later entry carries the same key id.
pub open spec fn entry_is_last(es: Seq<PubKeyEntry>, i: int) -> bool {
    no_later_dup(es, i, es.len() as int)
}

} // verus!
