use vstd::prelude::*;
use std::collections::BTreeSet;
use crate::models::IpAddress;
use crate::targets::ascending;
use vstd::std_specs::iter::IteratorSpec;
use vstd::std_specs::cmp::OrdSpec;

verus! {

broadcast use vstd::std_specs::btree::group_btree_axioms;

/// The key under which an address is kept in an ordered set: its family
/// (0 for IPv4, 1 for IPv6), then its bits. Keys order as addresses do.
pub open spec fn address_key(a: IpAddress) -> (u8, u128) {
    match a {
        IpAddress::V4(x) => (0u8, x as u128),
        IpAddress::V6(x) => (1u8, x),
    }
}

/// The address that a key stands for.
pub open spec fn key_address(k: (u8, u128)) -> IpAddress {
    if k.0 == 0 {
        IpAddress::V4(k.1 as u32)
    } else {
        IpAddress::V6(k.1)
    }
}

/// A key that some address has.
pub open spec fn valid_key(k: (u8, u128)) -> bool {
    (k.0 == 0 && k.1 <= 0xFFFF_FFFF) || k.0 == 1
}

proof fn lemma_keys_are_totally_ordered()
    ensures
        vstd::laws_cmp::obeys_cmp::<(u8, u128)>(),
        vstd::laws_cmp::obeys_cmp::<&(u8, u128)>(),
{
    broadcast use vstd::laws_cmp::group_laws_cmp;
}

/// The ordered set of keys `set` holds the address `a`.
pub open spec fn holds(set: Set<(u8, u128)>, a: IpAddress) -> bool {
    set.contains(address_key(a))
}

/// Every key in the set is the key of an address.
pub open spec fn keys_valid(set: Set<(u8, u128)>) -> bool {
    forall|k: (u8, u128)| set.contains(k) ==> valid_key(k)
}

/// An ordered set of addresses, kept by key.
pub fn new_address_set() -> (res: BTreeSet<(u8, u128)>)
    ensures
        res@ == Set::<(u8, u128)>::empty(),
{
    BTreeSet::new()
}

/// Adds `a` to the ordered set `set`.
pub fn add_address(set: &mut BTreeSet<(u8, u128)>, a: IpAddress)
    requires
        keys_valid(old(set)@),
    ensures
        final(set)@ == old(set)@.insert(address_key(a)),
        keys_valid(final(set)@),
        forall|x: IpAddress| #![trigger holds(final(set)@, x)] holds(final(set)@, x) <==> (holds(old(set)@, x) || x == a),
{
    proof {
        lemma_keys_are_totally_ordered();
    }
    let key = match a {
        IpAddress::V4(x) => (0u8, x as u128),
        IpAddress::V6(x) => (1u8, x),
    };
    set.insert(key);
}

/// Keys in increasing order (as a set's iterator yields them) come one
/// before the other by family, then by bits.
proof fn lemma_increasing_keys(keys: Seq<&(u8, u128)>)
    requires
        vstd::std_specs::btree::increasing_seq(keys),
    ensures
        forall|i: int, j: int| 0 <= i < j < keys.len() ==> key_before(*keys[i], *keys[j]),
{
    lemma_keys_are_totally_ordered();
    vstd::std_specs::btree::axiom_increasing_seq_meaning(keys);
    assert forall|i: int, j: int| 0 <= i < j < keys.len() implies key_before(*keys[i], *keys[j]) by {
        assert((&keys[i]).cmp_spec(&keys[j]) is Less);
        assert((*keys[i]).cmp_spec(&*keys[j]) is Less);
    }
}

/// The address that the key `k` stands for.
fn key_to_address(k: &(u8, u128)) -> (res: IpAddress)
    ensures
        res == key_address(*k),
{
    if k.0 == 0 {
        IpAddress::V4(k.1 as u32)
    } else {
        IpAddress::V6(k.1)
    }
}

/// The addresses of an ordered set, in increasing order.
pub fn set_addresses(set: &BTreeSet<(u8, u128)>) -> (res: Vec<IpAddress>)
    requires
        keys_valid(set@),
    ensures
        ascending(res@),
        forall|a: IpAddress| res@.contains(a) <==> set@.contains(address_key(a)),
{
    proof {
        lemma_keys_are_totally_ordered();
    }
    let mut res: Vec<IpAddress> = Vec::new();
    for k in it: set.iter()
        invariant
            res@ == it.seq().take(it.index() as int).map_values(|k: &(u8, u128)| key_address(*k)),
            it.seq() == vstd::std_specs::btree::spec_btree_keys_iter(set).remaining(),
    {
        res.push(key_to_address(k));
        assert(res@ == it.seq().take(it.index() + 1).map_values(|k: &(u8, u128)| key_address(*k)));
    }
    proof {
        let keys = vstd::std_specs::btree::spec_btree_keys_iter(set).remaining();
        lemma_increasing_keys(keys);
        assert forall|k: (u8, u128)| set@.contains(k) <==> exists|i: int| 0 <= i < keys.len() && *keys[i] == k by {
            assert(keys.unref().to_set() == set@);
            if set@.contains(k) {
                assert(keys.unref().contains(k));
                let i = choose|i: int| 0 <= i < keys.unref().len() && keys.unref()[i] == k;
                assert(*keys[i] == k);
            }
            if exists|i: int| 0 <= i < keys.len() && *keys[i] == k {
                let i = choose|i: int| 0 <= i < keys.len() && *keys[i] == k;
                assert(keys.unref()[i] == k);
                assert(keys.unref().contains(k));
            }
        }
        assert(res@ =~= keys.map_values(|k: &(u8, u128)| key_address(*k)));
        assert forall|i: int| 0 <= i < keys.len() implies valid_key(*#[trigger] keys[i]) by {
            assert(set@.contains(*keys[i]));
        }
        assert forall|i: int, j: int| 0 <= i < j < res@.len() implies res@[i].rank() < res@[j].rank() by {
            assert(key_before(*keys[i], *keys[j]));
            assert(valid_key(*keys[i]));
            assert(valid_key(*keys[j]));
        }
        assert forall|a: IpAddress| res@.contains(a) <==> set@.contains(address_key(a)) by {
            if res@.contains(a) {
                let i = choose|i: int| 0 <= i < res@.len() && res@[i] == a;
                assert(valid_key(*keys[i]));
                assert(address_key(key_address(*keys[i])) == *keys[i]);
            }
            if set@.contains(address_key(a)) {
                let i = choose|i: int| 0 <= i < keys.len() && *keys[i] == address_key(a);
                assert(key_address(address_key(a)) == a);
                assert(res@[i] == a);
            }
        }
    }
    res
}

/// Key `k1` comes before key `k2`: by family, then by bits.
pub open spec fn key_before(k1: (u8, u128), k2: (u8, u128)) -> bool {
    k1.0 < k2.0 || (k1.0 == k2.0 && k1.1 < k2.1)
}


} // verus!
