//! What the words of the model mean, each in terms of sequences and numbers alone.

use crate::batch::{signature_pairs, BatchCertificate, CertificateModel, HeaderModel};
use crate::committee::{stake_sum, Committee, CommitteeModel};
use crate::context::{committee_model, BatchContext, ContextModel};
use crate::error::StorageError;
use crate::ids::{Address, TransmissionID, TransmissionKey};
use crate::model::{declares, entries_of, first_outsider, minus, Provided, Rounds, StorageModel};
use crate::ordered::{as_map, distinct, distinct_keys, has_key, lemma_distinct, lemma_lookup_as_map};
use crate::ordered::{lemma_position, lookup, position, set_insert, set_swap_remove, swap_remove, upsert};
use crate::signature::{signature_address, Signature};
use crate::storage::{answers, certificate_models, grants};
use crate::transmission::{Transmission, TransmissionMap, TransmissionModel};
use vstd::prelude::*;

verus! {

/// A key is there exactly if some pair has it.
pub proof fn law_has_key<K, M>(s: Seq<(K, M)>, k: K)
    ensures
        has_key(s, k) <==> exists|i: int| 0 <= i < s.len() && (#[trigger] s[i]).0 == k,
{
}

/// Keys are distinct exactly if no two pairs have the same.
pub proof fn law_distinct_keys<K, M>(s: Seq<(K, M)>)
    ensures
        distinct_keys(s) <==> forall|i: int, j: int|
            0 <= i < j < s.len() ==> (#[trigger] s[i]).0 != (#[trigger] s[j]).0,
{
}

/// Under a key the value of its pair is found, and nothing where no pair has the key.
pub proof fn law_lookup<K, M>(s: Seq<(K, M)>, k: K)
    requires
        forall|i: int, j: int| 0 <= i < j < s.len() ==> (#[trigger] s[i]).0 != (#[trigger] s[j]).0,
    ensures
        forall|i: int| 0 <= i < s.len() && (#[trigger] s[i]).0 == k ==> lookup(s, k) == Some(s[i].1),
        (forall|i: int| 0 <= i < s.len() ==> (#[trigger] s[i]).0 != k) ==> lookup(s, k) is None,
        as_map(s).contains_key(k) <==> exists|i: int| 0 <= i < s.len() && (#[trigger] s[i]).0 == k,
        forall|i: int| 0 <= i < s.len() && (#[trigger] s[i]).0 == k ==> as_map(s)[k] == s[i].1,
{
    assert forall|i: int| 0 <= i < s.len() && (#[trigger] s[i]).0 == k implies lookup(s, k) == Some(s[i].1)
        && as_map(s)[k] == s[i].1 by {
        lemma_position(s, i);
        lemma_lookup_as_map(s, k);
    }
}

/// Setting the value of a key changes the pair of the key alone, and no pair moves. A key
/// that is not there comes last.
pub proof fn law_upsert<K, M>(s: Seq<(K, M)>, k: K, m: M)
    requires
        forall|i: int, j: int| 0 <= i < j < s.len() ==> (#[trigger] s[i]).0 != (#[trigger] s[j]).0,
    ensures
        forall|i: int|
            0 <= i < s.len() ==> #[trigger] upsert(s, k, m)[i] == (if s[i].0 == k {
                (k, m)
            } else {
                s[i]
            }),
        (exists|i: int| 0 <= i < s.len() && (#[trigger] s[i]).0 == k) ==> upsert(s, k, m).len() == s.len(),
        (forall|i: int| 0 <= i < s.len() ==> (#[trigger] s[i]).0 != k) ==> {
            &&& upsert(s, k, m).len() == s.len() + 1
            &&& upsert(s, k, m)[s.len() as int] == (k, m)
        },
{
    assert forall|i: int| 0 <= i < s.len() implies #[trigger] upsert(s, k, m)[i] == (if s[i].0 == k {
        (k, m)
    } else {
        s[i]
    }) by {
        if s[i].0 == k {
            lemma_position(s, i);
        } else if has_key(s, k) {
            assert(s[position(s, k)].0 == k);
        }
    }
}

/// Removing a key takes its pair out and moves the last pair into its place; where the key
/// is not there nothing changes.
pub proof fn law_swap_remove<K, M>(s: Seq<(K, M)>, k: K)
    requires
        forall|i: int, j: int| 0 <= i < j < s.len() ==> (#[trigger] s[i]).0 != (#[trigger] s[j]).0,
    ensures
        (forall|i: int| 0 <= i < s.len() ==> (#[trigger] s[i]).0 != k) ==> swap_remove(s, k) == s,
        forall|p: int|
            0 <= p < s.len() && (#[trigger] s[p]).0 == k ==> {
                &&& swap_remove(s, k).len() == s.len() - 1
                &&& p < s.len() - 1 ==> swap_remove(s, k)[p] == s[s.len() - 1]
                &&& forall|i: int| 0 <= i < s.len() - 1 && i != p ==> #[trigger] swap_remove(s, k)[i] == s[i]
            },
{
    assert forall|p: int| 0 <= p < s.len() && (#[trigger] s[p]).0 == k implies {
        &&& swap_remove(s, k).len() == s.len() - 1
        &&& p < s.len() - 1 ==> swap_remove(s, k)[p] == s[s.len() - 1]
        &&& forall|i: int| 0 <= i < s.len() - 1 && i != p ==> #[trigger] swap_remove(s, k)[i] == s[i]
    } by {
        lemma_position(s, p);
    }
}

/// Putting an item in leaves all items where they are, and puts the item last unless it is
/// there.
pub proof fn law_set_insert<A>(s: Seq<A>, x: A)
    ensures
        forall|i: int| 0 <= i < s.len() ==> #[trigger] set_insert(s, x)[i] == s[i],
        (exists|i: int| 0 <= i < s.len() && #[trigger] s[i] == x) ==> set_insert(s, x).len() == s.len(),
        (forall|i: int| 0 <= i < s.len() ==> #[trigger] s[i] != x) ==> set_insert(s, x).len() == s.len() + 1
            && set_insert(s, x)[s.len() as int] == x,
{
}

/// Taking an item out moves the last item into its place; where the item is not there
/// nothing changes.
pub proof fn law_set_swap_remove<A>(s: Seq<A>, x: A)
    requires
        s.no_duplicates(),
    ensures
        (forall|i: int| 0 <= i < s.len() ==> #[trigger] s[i] != x) ==> set_swap_remove(s, x) == s,
        forall|p: int|
            0 <= p < s.len() && #[trigger] s[p] == x ==> {
                &&& set_swap_remove(s, x).len() == s.len() - 1
                &&& p < s.len() - 1 ==> set_swap_remove(s, x)[p] == s[s.len() - 1]
                &&& forall|i: int| 0 <= i < s.len() - 1 && i != p ==> #[trigger] set_swap_remove(s, x)[i] == s[i]
            },
{
    assert forall|p: int| 0 <= p < s.len() && #[trigger] s[p] == x implies {
        &&& set_swap_remove(s, x).len() == s.len() - 1
        &&& p < s.len() - 1 ==> set_swap_remove(s, x)[p] == s[s.len() - 1]
        &&& forall|i: int| 0 <= i < s.len() - 1 && i != p ==> #[trigger] set_swap_remove(s, x)[i] == s[i]
    } by {
        assert(s.contains(x));
        assert(s[s.index_of(x)] == s[p]);
    }
}

/// Listing each item once gives the same items, none twice, in the order in which they
/// first occur: where an item first occurs is before any place of an item listed after it.
pub proof fn law_distinct<A>(s: Seq<A>)
    ensures
        forall|x: A|
            (exists|i: int| 0 <= i < distinct(s).len() && #[trigger] distinct(s)[i] == x) <==> #[trigger] s.contains(x),
        forall|i: int, j: int|
            0 <= i < j < distinct(s).len() ==> #[trigger] distinct(s)[i] != #[trigger] distinct(s)[j],
        forall|i: int, j: int, a: int, b: int|
            #![trigger distinct(s)[i], distinct(s)[j], s[a], s[b]]
            0 <= i < j < distinct(s).len() && 0 <= a < s.len() && 0 <= b < s.len() && s[a] == distinct(s)[i] && s[b]
                == distinct(s)[j] && (forall|x: int| 0 <= x < a ==> #[trigger] s[x] != s[a]) ==> a < b,
    decreases s.len(),
{
    lemma_distinct(s);
    let r = distinct(s);
    assert forall|x: A| (exists|i: int| 0 <= i < r.len() && #[trigger] r[i] == x) <==> #[trigger] s.contains(x) by {
        assert(r.contains(x) <==> s.contains(x));
        if r.contains(x) {
            assert(r[r.index_of(x)] == x);
        }
    }
    if s.len() > 0 {
        let d = s.drop_last();
        let n = s.len() - 1;
        law_distinct(d);
        lemma_distinct(d);
        let before = distinct(d);
        assert forall|i: int, j: int, a: int, b: int|
            #![trigger r[i], r[j], s[a], s[b]]
            0 <= i < j < r.len() && 0 <= a < s.len() && 0 <= b < s.len() && s[a] == r[i] && s[b] == r[j] && (forall|
                x: int,
            |
                0 <= x < a ==> #[trigger] s[x] != s[a]) implies a < b by {
            assert(r[i] == before[i]);
            assert(before.contains(r[i]));
            assert(d.contains(r[i]));
            let at = d.index_of(r[i]);
            assert(s[at] == r[i]);
            assert(a <= at);
            assert(d[a] == before[i]);
            assert forall|x: int| 0 <= x < a implies #[trigger] d[x] != d[a] by {
                assert(s[x] != s[a]);
            }
            if b < n && j < before.len() {
                assert(r[j] == before[j]);
                assert(d[b] == before[j]);
            } else if b < n {
                assert(r[j] == s[n]);
                assert(d[b] == s[n]);
                assert(d.contains(s[n]));
                assert(before.contains(s[n]));
            }
        }
    }
}

/// An address is a member exactly if it is listed.
pub proof fn law_is_member(committee: CommitteeModel, address: Address)
    ensures
        committee.is_member(address) <==> exists|i: int|
            0 <= i < committee.members.len() && (#[trigger] committee.members[i]).0 == address,
{
}

/// The stake of an address is what is listed with it, and nothing for one that is not listed.
pub proof fn law_stake(committee: CommitteeModel, address: Address)
    requires
        forall|i: int, j: int|
            0 <= i < j < committee.members.len() ==> (#[trigger] committee.members[i]).0 != (
            #[trigger] committee.members[j]).0,
    ensures
        forall|i: int|
            0 <= i < committee.members.len() && (#[trigger] committee.members[i]).0 == address ==> committee.stake(
                address,
            ) == committee.members[i].1,
        (forall|i: int| 0 <= i < committee.members.len() ==> (#[trigger] committee.members[i]).0 != address)
            ==> committee.stake(address) == 0,
{
    law_lookup(committee.members, address);
}

/// The whole stake grows with each member by its stake, and is nothing for no members.
pub proof fn law_stake_sum(members: Seq<(Address, u64)>, member: (Address, u64))
    ensures
        stake_sum(Seq::<(Address, u64)>::empty()) == 0,
        stake_sum(members.push(member)) == stake_sum(members) + member.1,
        stake_sum(members) >= 0,
    decreases members.len(),
{
    assert(members.push(member).drop_last() =~= members);
    if members.len() > 0 {
        law_stake_sum(members.drop_last(), member);
    }
}

/// The stake of addresses together is the sum of the stakes of exactly these addresses.
pub proof fn law_combined_stake(committee: CommitteeModel, addresses: Seq<Address>, address: Address)
    ensures
        committee.combined_stake(Seq::<Address>::empty()) == 0,
        committee.combined_stake(seq![address]) == committee.stake(address),
        committee.combined_stake(addresses.push(address)) == committee.combined_stake(addresses) + committee.stake(
            address,
        ),
        committee.stake(address) >= 0,
        committee.combined_stake(addresses) >= 0,
    decreases addresses.len(),
{
    assert(addresses.push(address).drop_last() =~= addresses);
    assert(seq![address].drop_last() =~= Seq::<Address>::empty());
    if addresses.len() > 0 {
        law_combined_stake(committee, addresses.drop_last(), addresses.last());
    }
}

/// The stake of addresses together does not depend on their order: an address counts for
/// its stake wherever it stands.
pub proof fn law_combined_stake_in_any_order(committee: CommitteeModel, addresses: Seq<Address>, i: int)
    requires
        0 <= i < addresses.len(),
    ensures
        committee.combined_stake(addresses) == committee.combined_stake(addresses.remove(i)) + committee.stake(
            addresses[i],
        ),
    decreases addresses.len(),
{
    if i == addresses.len() - 1 {
        assert(addresses.remove(i) =~= addresses.drop_last());
    } else {
        law_combined_stake_in_any_order(committee, addresses.drop_last(), i);
        assert(addresses.remove(i).drop_last() =~= addresses.drop_last().remove(i));
    }
}

/// Addresses that differ do not have more stake together than all members have, and the
/// members have it all.
pub proof fn law_combined_stake_is_part(committee: CommitteeModel, addresses: Seq<Address>)
    requires
        distinct_keys(committee.members),
        addresses.no_duplicates(),
    ensures
        committee.combined_stake(addresses) <= stake_sum(committee.members),
        committee.combined_stake(committee.members.map_values(|member: (Address, u64)| member.0)) == stake_sum(
            committee.members,
        ),
    decreases committee.members.len(),
{
    let members = committee.members;
    let listed = members.map_values(|member: (Address, u64)| member.0);
    if members.len() == 0 {
        lemma_no_stake(committee, addresses);
        assert(listed =~= Seq::<Address>::empty());
    } else {
        let smaller = CommitteeModel { members: members.drop_last(), ..committee };
        let (last, stake) = members.last();
        let before = smaller.members.map_values(|member: (Address, u64)| member.0);
        assert(listed.drop_last() =~= before);
        assert forall|a: int| 0 <= a < smaller.members.len() implies (#[trigger] smaller.members[a]).0 != last by {
            assert(members[a].0 != members[members.len() - 1].0);
        }
        assert(!before.contains(last)) by {
            if before.contains(last) {
                let a = before.index_of(last);
                assert(smaller.members[a].0 == last);
            }
        }
        assert(committee.stake(last) == stake) by {
            lemma_position(members, members.len() - 1);
        }
        lemma_stake_without_last(committee, before);
        if addresses.contains(last) {
            let i = addresses.index_of(last);
            let rest = addresses.remove(i);
            assert(rest.no_duplicates()) by {
                assert forall|a: int, b: int| 0 <= a < rest.len() && 0 <= b < rest.len() && a != b implies rest[a]
                    != rest[b] by {
                    let x = if a < i { a } else { a + 1 };
                    let y = if b < i { b } else { b + 1 };
                    assert(addresses[x] != addresses[y]);
                }
            }
            assert(!rest.contains(last)) by {
                if rest.contains(last) {
                    let a = rest.index_of(last);
                    let x = if a < i { a } else { a + 1 };
                    assert(addresses[x] == addresses[i]);
                }
            }
            law_combined_stake_in_any_order(committee, addresses, i);
            lemma_stake_without_last(committee, rest);
            law_combined_stake_is_part(smaller, rest);
        } else {
            lemma_stake_without_last(committee, addresses);
            law_combined_stake_is_part(smaller, addresses);
        }
    }
}

/// In a committee without members no address has a stake.
proof fn lemma_no_stake(committee: CommitteeModel, addresses: Seq<Address>)
    requires
        committee.members.len() == 0,
    ensures
        committee.combined_stake(addresses) == 0,
    decreases addresses.len(),
{
    if addresses.len() > 0 {
        lemma_no_stake(committee, addresses.drop_last());
    }
}

/// The last member does not matter to the stake of addresses among which it is not.
proof fn lemma_stake_without_last(committee: CommitteeModel, addresses: Seq<Address>)
    requires
        distinct_keys(committee.members),
        committee.members.len() > 0,
        !addresses.contains(committee.members.last().0),
    ensures
        committee.combined_stake(addresses) == (CommitteeModel {
            members: committee.members.drop_last(),
            ..committee
        }).combined_stake(addresses),
    decreases addresses.len(),
{
    if addresses.len() > 0 {
        let d = addresses.drop_last();
        let smaller = CommitteeModel { members: committee.members.drop_last(), ..committee };
        let address = addresses.last();
        let last = committee.members.last().0;
        assert(addresses[addresses.len() - 1] == address);
        assert(!d.contains(last)) by {
            if d.contains(last) {
                assert(addresses[d.index_of(last)] == last);
            }
        }
        lemma_stake_without_last(committee, d);
        if has_key(committee.members, address) {
            let p = position(committee.members, address);
            assert(committee.members[p].0 == address);
            assert(p < committee.members.len() - 1);
            assert(smaller.members[p].0 == address);
            lemma_position(smaller.members, p);
        } else if has_key(smaller.members, address) {
            let p = position(smaller.members, address);
            assert(committee.members[p].0 == address);
        }
        assert(committee.stake(address) == smaller.stake(address));
    }
}

/// Addresses are a quorum exactly if three times their stake is above twice the whole stake,
/// each cut at the largest `u64`.
pub proof fn law_quorum(committee: CommitteeModel, addresses: Seq<Address>)
    ensures
        committee.quorum_reached(addresses) <==> {
            let stake = committee.combined_stake(addresses);
            let doubled = 2 * stake_sum(committee.members);
            3 * (if stake <= u64::MAX {
                stake
            } else {
                u64::MAX as int
            }) > (if doubled <= u64::MAX {
                doubled
            } else {
                u64::MAX as int
            })
        },
        committee.quorum_reached(addresses) <==> committee.quorum_threshold() <= (if committee.combined_stake(addresses)
            <= u64::MAX {
            committee.combined_stake(addresses)
        } else {
            u64::MAX as int
        }),
{
}

/// Two quorums have an address in common.
pub proof fn law_quorums_overlap(committee: CommitteeModel, a: Seq<Address>, b: Seq<Address>)
    requires
        distinct_keys(committee.members),
        2 * stake_sum(committee.members) <= u64::MAX,
        a.no_duplicates(),
        b.no_duplicates(),
        committee.quorum_reached(a),
        committee.quorum_reached(b),
    ensures
        exists|i: int, j: int| 0 <= i < a.len() && 0 <= j < b.len() && #[trigger] a[i] == #[trigger] b[j],
{
    law_quorum(committee, a);
    law_quorum(committee, b);
    law_combined_stake_is_part(committee, a);
    law_combined_stake_is_part(committee, b);
    if forall|i: int, j: int| 0 <= i < a.len() && 0 <= j < b.len() ==> #[trigger] a[i] != #[trigger] b[j] {
        let both = a + b;
        assert(both.no_duplicates()) by {
            assert forall|i: int, j: int| 0 <= i < both.len() && 0 <= j < both.len() && i != j implies both[i]
                != both[j] by {
                if i < a.len() && j >= a.len() {
                    assert(a[i] != b[j - a.len()]);
                } else if i >= a.len() && j < a.len() {
                    assert(a[j] != b[i - a.len()]);
                }
            }
        }
        law_combined_stake_is_part(committee, both);
        lemma_combined_stake_of_both(committee, a, b);
    }
}

/// The stake of two lists of addresses together is that of the one and that of the other.
proof fn lemma_combined_stake_of_both(committee: CommitteeModel, a: Seq<Address>, b: Seq<Address>)
    ensures
        committee.combined_stake(a + b) == committee.combined_stake(a) + committee.combined_stake(b),
    decreases b.len(),
{
    if b.len() == 0 {
        assert(a + b =~= a);
    } else {
        lemma_combined_stake_of_both(committee, a, b.drop_last());
        assert((a + b).drop_last() =~= a + b.drop_last());
    }
}

/// A timestamp is live exactly if it is neither before the earliest nor after the latest.
pub proof fn law_is_live(context: ContextModel, timestamp: i64)
    ensures
        context.is_live(timestamp) <==> context.earliest <= timestamp && timestamp <= context.latest,
{
}

/// What a batch context says is what its fields say.
pub proof fn law_batch_context(context: BatchContext)
    ensures
        context@.earliest == context.earliest,
        context@.latest == context.latest,
        context.committee matches Some(committee) ==> context@.committee == Some(committee@),
        context.committee is None ==> context@.committee is None,
        context.previous_committee matches Some(committee) ==> context@.previous_committee == Some(committee@),
        context.previous_committee is None ==> context@.previous_committee is None,
{
}

/// What the ledger says of a committee is what the committee says.
pub proof fn law_committee_model(committee: &Committee)
    ensures
        committee_model(Some(committee)) == Some(committee@),
        committee_model(None) is None,
{
}

/// What a transmission says is what it is and its bytes.
pub proof fn law_transmission(transmission: Transmission)
    ensures
        transmission is Ratification <==> transmission@ is Ratification,
        transmission matches Transmission::Solution(bytes) ==> transmission@ == TransmissionModel::Solution(bytes@),
        transmission matches Transmission::Transaction(bytes) ==> transmission@ == TransmissionModel::Transaction(
            bytes@,
        ),
{
}

/// Transmissions with different IDs have different keys.
pub proof fn law_keys_differ(a: TransmissionID, b: TransmissionID)
    requires
        a != b,
    ensures
        a.key() != b.key(),
        TransmissionID::from_key(a.key()) == a,
{
}

/// The signers, the timestamps and the entry of a certificate are those of its signatures
/// and its header.
pub proof fn law_certificate_parts(certificate: CertificateModel)
    ensures
        certificate.signers().len() == certificate.signatures.len(),
        certificate.timestamps().len() == certificate.signatures.len(),
        forall|i: int|
            0 <= i < certificate.signatures.len() ==> {
                &&& #[trigger] certificate.signers()[i] == signature_address(certificate.signatures[i].0).unwrap()
                &&& certificate.timestamps()[i] == certificate.signatures[i].1
            },
        certificate.entry().0 == certificate.certificate_id,
        certificate.entry().1 == certificate.header.batch_id,
        certificate.entry().2 == certificate.header.author,
{
}

/// What signatures and certificates say, one by one.
pub proof fn law_signature_pairs(signatures: Seq<(Signature, i64)>)
    ensures
        signature_pairs(signatures).len() == signatures.len(),
        forall|i: int|
            0 <= i < signatures.len() ==> #[trigger] signature_pairs(signatures)[i] == (
                signatures[i].0@,
                signatures[i].1,
            ),
{
}

/// A list of certificates says what each of them says, in order.
pub proof fn law_certificate_models(certificates: Seq<BatchCertificate>)
    ensures
        certificate_models(certificates).len() == certificates.len(),
        forall|i: int|
            0 <= i < certificates.len() ==> #[trigger] certificate_models(certificates)[i] == certificates[i]@,
{
}

/// A header is in order exactly if no transmission and no previous certificate is listed twice.
pub proof fn law_header_wf(header: HeaderModel)
    ensures
        header.wf() <==> {
            &&& forall|i: int, j: int|
                0 <= i < j < header.transmission_ids.len() ==> #[trigger] header.transmission_ids[i]
                    != #[trigger] header.transmission_ids[j]
            &&& forall|i: int, j: int|
                0 <= i < j < header.previous_certificate_ids.len() ==> #[trigger] header.previous_certificate_ids[i]
                    != #[trigger] header.previous_certificate_ids[j]
        },
{
}

/// A request is granted with the new storage, or refused with the reason and the storage as
/// it was.
pub proof fn law_grants(
    result: Result<(), StorageError>,
    before: StorageModel,
    after: StorageModel,
    answer: Result<StorageModel, StorageError>,
)
    ensures
        grants(result, before, after, answer) <==> {
            ||| result is Ok && answer is Ok && answer->Ok_0 == after
            ||| result is Err && answer is Err && answer->Err_0 == result->Err_0 && after == before
        },
{
}

/// A check answers with the missing transmissions, or with the reason.
pub proof fn law_answers(result: Result<TransmissionMap, StorageError>, answer: Result<Provided, StorageError>)
    ensures
        answers(result, answer) <==> {
            ||| result is Ok && answer is Ok && answer->Ok_0 == result->Ok_0@
            ||| result is Err && answer is Err && answer->Err_0 == result->Err_0
        },
{
}

/// A transmission is declared exactly if one of the IDs has its key.
pub proof fn law_declares(ids: Seq<TransmissionID>, id: TransmissionID)
    ensures
        declares(ids, id.key()) <==> exists|i: int| 0 <= i < ids.len() && #[trigger] ids[i] == id,
        forall|k: TransmissionKey| #[trigger]
            declares(ids, k) <==> exists|i: int| 0 <= i < ids.len() && (#[trigger] ids[i]).key() == k,
{
    if declares(ids, id.key()) {
        let i = choose|i: int| 0 <= i < ids.len() && (#[trigger] ids[i]).key() == id.key();
        assert(TransmissionID::from_key(ids[i].key()) == ids[i]);
        assert(ids[i] == id);
    }
    if exists|i: int| 0 <= i < ids.len() && #[trigger] ids[i] == id {
        let i = choose|i: int| 0 <= i < ids.len() && #[trigger] ids[i] == id;
        assert(ids[i].key() == id.key());
    }
}

/// `a - b` is what added to `b` gives `a`, and zero where there is no such number.
pub proof fn law_minus(a: u64, b: u64)
    ensures
        a >= b ==> minus(a, b) + b == a,
        a < b ==> minus(a, b) == 0,
{
}

/// The first address that is not listed is the outsider, and there is none where all are.
pub proof fn law_first_outsider(committee: CommitteeModel, addresses: Seq<Address>)
    ensures
        forall|a: int|
            0 <= a < addresses.len() && !has_key(committee.members, #[trigger] addresses[a]) && (forall|b: int|
                0 <= b < a ==> has_key(committee.members, #[trigger] addresses[b])) ==> first_outsider(
                committee,
                addresses,
            ) == Some(addresses[a]),
        (forall|a: int| 0 <= a < addresses.len() ==> has_key(committee.members, #[trigger] addresses[a]))
            ==> first_outsider(committee, addresses) is None,
    decreases addresses.len(),
{
    if addresses.len() > 0 {
        let d = addresses.drop_last();
        let n = addresses.len() - 1;
        law_first_outsider(committee, d);
        assert forall|a: int| 0 <= a < d.len() implies #[trigger] d[a] == addresses[a] by {}
        assert forall|a: int|
            0 <= a < addresses.len() && !has_key(committee.members, #[trigger] addresses[a]) && (forall|b: int|
                0 <= b < a ==> has_key(committee.members, #[trigger] addresses[b])) implies first_outsider(
            committee,
            addresses,
        ) == Some(addresses[a]) by {
            if a < n {
                assert(!has_key(committee.members, d[a]));
            } else {
                assert forall|b: int| 0 <= b < d.len() implies has_key(committee.members, #[trigger] d[b]) by {
                    assert(has_key(committee.members, addresses[b]));
                }
            }
        }
        if forall|a: int| 0 <= a < addresses.len() ==> has_key(committee.members, #[trigger] addresses[a]) {
            assert forall|b: int| 0 <= b < d.len() implies has_key(committee.members, #[trigger] d[b]) by {
                assert(has_key(committee.members, addresses[b]));
            }
            assert(has_key(committee.members, addresses[n]));
        }
    }
}

/// The entries of a round are what stands with it, and none for a round that is not there.
pub proof fn law_entries_of(rounds: Rounds, round: u64)
    requires
        distinct_keys(rounds),
    ensures
        forall|i: int| 0 <= i < rounds.len() && (#[trigger] rounds[i]).0 == round ==> entries_of(rounds, round)
            == rounds[i].1,
        (forall|i: int| 0 <= i < rounds.len() ==> (#[trigger] rounds[i]).0 != round) ==> entries_of(rounds, round).len()
            == 0,
{
    law_lookup(rounds, round);
}

} // verus!
