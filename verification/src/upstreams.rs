//! The servers that requests are forwarded to: which to try, which have
//! failed, and how they are checked.

use rand::{Rng, SeedableRng};

use vstd::prelude::*;

use crate::text::views;

verus! {

/// `rand::Rng::gen_range`, on an `StdRng` that `SeedableRng::from_entropy` has
/// seeded: a number from `low` up to, but not reaching, `high`. Which one it
/// is rests on chance, and nothing is claimed of it. Without a source of
/// entropy in the system `from_entropy` panics.
#[verifier::external_body]
fn random_between(low: usize, high: usize) -> (r: usize)
    requires
        low < high,
    ensures
        low <= r < high,
{
    let mut rng = rand::rngs::StdRng::from_entropy();
    rng.gen_range(low, high)
}

/// A server picked at random, if there is one.
pub fn pick_upstream(upstreams: &Vec<String>) -> (r: Option<String>)
    ensures
        r is None <==> upstreams@.len() == 0,
        r matches Some(ip) ==> views(upstreams@).contains(ip@),
{
    if upstreams.is_empty() {
        return None;
    }
    let idx: usize = random_between(0, upstreams.len());
    upstream_at(upstreams, idx)
}

/// The server at an index, if there is one.
pub fn upstream_at(upstreams: &Vec<String>, idx: usize) -> (r: Option<String>)
    ensures
        r is Some <==> idx < upstreams@.len(),
        r matches Some(ip) ==> ip@ == views(upstreams@)[idx as int] && views(
            upstreams@,
        ).contains(ip@),
{
    if idx < upstreams.len() {
        let ip = upstreams[idx].clone();
        assert(views(upstreams@)[idx as int] == ip@);
        Some(ip)
    } else {
        None
    }
}

/// Whether an address stands first at an index.
pub open spec fn first_at(addresses: Seq<Seq<char>>, ip: Seq<char>, idx: int) -> bool {
    &&& 0 <= idx < addresses.len()
    &&& addresses[idx] == ip
    &&& forall|j: int| 0 <= j < idx ==> addresses[j] != ip
}

/// Addresses without the one at an index, whose place the last one takes.
pub open spec fn swap_removed(addresses: Seq<Seq<char>>, idx: int) -> Seq<Seq<char>> {
    addresses.update(idx, addresses.last()).drop_last()
}

/// Whether a list of addresses is another without the first occurrence of an
/// address, whose place the last one has taken.
pub open spec fn taken_out(
    before: Seq<Seq<char>>,
    ip: Seq<char>,
    after: Seq<Seq<char>>,
) -> bool {
    &&& !before.contains(ip) ==> after == before
    &&& before.contains(ip) ==> exists|idx: int| #[trigger]
        first_at(before, ip, idx) && after == swap_removed(before, idx)
}

/// Taking an address out keeps all others, and adds none.
pub proof fn lemma_taken_out_keeps_others(
    before: Seq<Seq<char>>,
    ip: Seq<char>,
    after: Seq<Seq<char>>,
    any: Seq<char>,
)
    requires
        taken_out(before, ip, after),
    ensures
        any != ip ==> (after.contains(any) <==> before.contains(any)),
        after.contains(any) ==> before.contains(any),
{
    if before.contains(ip) {
        let idx = choose|idx: int| #[trigger]
            first_at(before, ip, idx) && after == swap_removed(before, idx);
        if before.contains(any) && any != ip {
            let k = choose|k: int| 0 <= k < before.len() && before[k] == any;
            if k == before.len() - 1 {
                assert(after[idx] == any);
            } else {
                assert(after[k] == any);
            }
        }
        if after.contains(any) {
            let k = choose|k: int| 0 <= k < after.len() && after[k] == any;
            if k == idx {
                assert(before[before.len() - 1] == any);
            } else {
                assert(before[k] == any);
            }
        }
    }
}

/// Moves a server that could not be reached to the failed ones. One that is
/// not among the live ones any more is still added to the failed ones.
pub fn mark_failed(upstreams: &mut Vec<String>, failed: &mut Vec<String>, upstream_ip: String)
    ensures
        taken_out(views(old(upstreams)@), upstream_ip@, views(final(upstreams)@)),
        views(final(failed)@) == views(old(failed)@).push(upstream_ip@),
{
    let ghost before = views(upstreams@);
    let ghost ip = upstream_ip@;
    let ghost failed_before = failed@;
    let len: usize = upstreams.len();
    let mut idx: usize = 0;
    while idx < len && upstreams[idx] != upstream_ip
        invariant
            idx <= len,
            len == upstreams@.len(),
            before == views(upstreams@),
            ip == upstream_ip@,
            forall|j: int| 0 <= j < idx ==> before[j] != ip,
        decreases len - idx,
    {
        idx = idx + 1;
    }
    if idx < len {
        assert(before[idx as int] == ip);
        assert(first_at(before, ip, idx as int));
        let _ = upstreams.swap_remove(idx);
        assert(views(upstreams@) =~= swap_removed(before, idx as int));
    } else {
        assert(!before.contains(ip));
    }
    failed.push(upstream_ip);
    assert(views(failed@) =~= views(failed_before).push(ip));
}

/// The servers to check: the live ones, then the failed ones.
pub fn check_targets(upstreams: &Vec<String>, failed: &Vec<String>) -> (r: Vec<String>)
    ensures
        views(r@) == views(upstreams@) + views(failed@),
{
    let mut ips: Vec<String> = Vec::new();
    for i in 0..upstreams.len()
        invariant
            views(ips@) == views(upstreams@).take(i as int),
    {
        let ghost before = ips@;
        ips.push(upstreams[i].clone());
        assert(views(ips@) =~= views(before).push(views(upstreams@)[i as int]));
        assert(views(ips@) =~= views(upstreams@).take(i + 1));
    }
    for i in 0..failed.len()
        invariant
            views(ips@) == views(upstreams@) + views(failed@).take(i as int),
    {
        let ghost before = ips@;
        ips.push(failed[i].clone());
        assert(views(ips@) =~= views(before).push(views(failed@)[i as int]));
        assert(views(ips@) =~= views(upstreams@) + views(failed@).take(i + 1));
    }
    assert(views(failed@).take(failed@.len() as int) =~= views(failed@));
    ips
}

/// The addresses whose flag is the wanted one, in order.
pub open spec fn with_flag(
    addresses: Seq<Seq<char>>,
    flags: Seq<bool>,
    wanted: bool,
) -> Seq<Seq<char>>
    decreases addresses.len(),
{
    if addresses.len() == 0 {
        Seq::empty()
    } else {
        let before = with_flag(addresses.drop_last(), flags, wanted);
        if flags[addresses.len() - 1] == wanted {
            before.push(addresses.last())
        } else {
            before
        }
    }
}

/// Splits the checked servers into those that were active and those that were
/// not, each in the order of the check.
pub fn split_by_health(ips: Vec<String>, active: &Vec<bool>) -> (r: (Vec<String>, Vec<String>))
    requires
        active@.len() == ips@.len(),
    ensures
        views(r.0@) == with_flag(views(ips@), active@, true),
        views(r.1@) == with_flag(views(ips@), active@, false),
{
    let ghost addresses = views(ips@);
    let mut new_alive: Vec<String> = Vec::new();
    let mut new_failed: Vec<String> = Vec::new();
    let mut idx: usize = 0;
    for ele in it: ips
        invariant
            it.seq() == ips@,
            addresses == views(ips@),
            active@.len() == ips@.len(),
            idx == it.index(),
            views(new_alive@) == with_flag(addresses.take(it.index()), active@, true),
            views(new_failed@) == with_flag(addresses.take(it.index()), active@, false),
    {
        let ghost upto = addresses.take(idx + 1);
        let ghost alive_before = new_alive@;
        let ghost failed_before = new_failed@;
        assert(upto.drop_last() =~= addresses.take(idx as int));
        assert(upto.last() == ele@);
        assert(idx < active.len());
        if active[idx] {
            new_alive.push(ele);
            assert(views(new_alive@) =~= views(alive_before).push(ele@));
        } else {
            new_failed.push(ele);
            assert(views(new_failed@) =~= views(failed_before).push(ele@));
        }
        idx = idx + 1;
    }
    assert(addresses.take(addresses.len() as int) =~= addresses);
    (new_alive, new_failed)
}

/// A check loses no server and adds none.
pub proof fn lemma_check_keeps_servers(addresses: Seq<Seq<char>>, flags: Seq<bool>)
    requires
        flags.len() == addresses.len(),
    ensures
        with_flag(addresses, flags, true).to_multiset().add(
            with_flag(addresses, flags, false).to_multiset(),
        ) == addresses.to_multiset(),
        forall|ip: Seq<char>| #[trigger]
            addresses.contains(ip) <==> with_flag(addresses, flags, true).contains(ip)
                || with_flag(addresses, flags, false).contains(ip),
{
    lemma_flags_split(addresses, flags);
    let alive = with_flag(addresses, flags, true);
    let failed = with_flag(addresses, flags, false);
    assert forall|ip: Seq<char>| #[trigger] addresses.contains(ip) <==> alive.contains(ip)
        || failed.contains(ip) by {
        addresses.to_multiset_ensures();
        alive.to_multiset_ensures();
        failed.to_multiset_ensures();
        assert(addresses.to_multiset().count(ip) == alive.to_multiset().count(ip)
            + failed.to_multiset().count(ip));
    }
}

/// The two halves of a split make up the whole.
proof fn lemma_flags_split(addresses: Seq<Seq<char>>, flags: Seq<bool>)
    ensures
        with_flag(addresses, flags, true).to_multiset().add(
            with_flag(addresses, flags, false).to_multiset(),
        ) == addresses.to_multiset(),
    decreases addresses.len(),
{
    broadcast use vstd::multiset::group_multiset_axioms;

    if addresses.len() == 0 {
        assert(addresses =~= Seq::empty());
        Seq::<Seq<char>>::empty().to_multiset_ensures();
        assert(with_flag(addresses, flags, true).to_multiset().add(
            with_flag(addresses, flags, false).to_multiset(),
        ) =~= addresses.to_multiset());
    } else {
        let rest = addresses.drop_last();
        let last = addresses.last();
        lemma_flags_split(rest, flags);
        let alive = with_flag(rest, flags, true);
        let failed = with_flag(rest, flags, false);
        alive.to_multiset_ensures();
        failed.to_multiset_ensures();
        rest.to_multiset_ensures();
        assert(addresses =~= rest.push(last));
        assert(with_flag(addresses, flags, true).to_multiset().add(
            with_flag(addresses, flags, false).to_multiset(),
        ) =~= addresses.to_multiset());
    }
}

/// Moving a live server to the failed ones loses no server and adds none. One
/// server fewer is live.
pub proof fn lemma_failure_keeps_servers(
    upstreams: Seq<Seq<char>>,
    failed: Seq<Seq<char>>,
    ip: Seq<char>,
    after: Seq<Seq<char>>,
)
    requires
        upstreams.contains(ip),
        taken_out(upstreams, ip, after),
    ensures
        after.to_multiset().add(failed.push(ip).to_multiset()) == upstreams.to_multiset().add(
            failed.to_multiset(),
        ),
        after.len() == upstreams.len() - 1,
{
    broadcast use vstd::multiset::group_multiset_axioms;

    let idx = choose|idx: int| #[trigger]
        first_at(upstreams, ip, idx) && after == swap_removed(upstreams, idx);
    let last = upstreams.last();
    let rest = upstreams.drop_last();
    rest.to_multiset_ensures();
    upstreams.to_multiset_ensures();
    failed.to_multiset_ensures();
    assert(upstreams =~= rest.push(last));
    if idx == upstreams.len() - 1 {
        assert(after =~= rest);
    } else {
        assert(after =~= rest.update(idx, last));
        vstd::seq_lib::to_multiset_update(rest, idx, last);
    }
    assert(after.to_multiset().add(failed.push(ip).to_multiset()) =~= upstreams.to_multiset().add(
        failed.to_multiset(),
    ));
}

/// A server is judged by its own check, and by no other: checks of some
/// servers and then of others come to the same as one check of all of them.
pub proof fn lemma_checks_add_up(
    some: Seq<Seq<char>>,
    some_flags: Seq<bool>,
    others: Seq<Seq<char>>,
    other_flags: Seq<bool>,
    wanted: bool,
)
    requires
        some.len() == some_flags.len(),
        others.len() == other_flags.len(),
    ensures
        with_flag(some + others, some_flags + other_flags, wanted) == with_flag(
            some,
            some_flags,
            wanted,
        ) + with_flag(others, other_flags, wanted),
    decreases others.len(),
{
    let all = some + others;
    let flags = some_flags + other_flags;
    if others.len() == 0 {
        assert(all =~= some);
        assert(flags =~= some_flags);
        assert(with_flag(all, flags, wanted) =~= with_flag(some, some_flags, wanted) + with_flag(
            others,
            other_flags,
            wanted,
        ));
    } else {
        let fewer = others.drop_last();
        let fewer_flags = other_flags.drop_last();
        lemma_checks_add_up(some, some_flags, fewer, fewer_flags, wanted);
        assert(all.drop_last() =~= some + fewer);
        assert(all.last() == others.last());
        assert(flags[all.len() - 1] == other_flags[others.len() - 1]);
        lemma_later_flags_do_not_count(some + fewer, some_flags + fewer_flags, flags, wanted);
        lemma_later_flags_do_not_count(fewer, fewer_flags, other_flags, wanted);
        assert(with_flag(all, flags, wanted) =~= with_flag(some, some_flags, wanted) + with_flag(
            others,
            other_flags,
            wanted,
        ));
    }
}

/// Only the flags of the addresses themselves count.
proof fn lemma_later_flags_do_not_count(
    addresses: Seq<Seq<char>>,
    flags: Seq<bool>,
    more: Seq<bool>,
    wanted: bool,
)
    requires
        addresses.len() <= flags.len(),
        addresses.len() <= more.len(),
        forall|i: int| 0 <= i < addresses.len() ==> flags[i] == more[i],
    ensures
        with_flag(addresses, flags, wanted) == with_flag(addresses, more, wanted),
    decreases addresses.len(),
{
    if addresses.len() > 0 {
        lemma_later_flags_do_not_count(addresses.drop_last(), flags, more, wanted);
    }
}

/// Of one server that was checked, the check decides.
pub proof fn lemma_check_of_one(ip: Seq<char>, flag: bool, wanted: bool)
    ensures
        with_flag(seq![ip], seq![flag], wanted) == if flag == wanted {
            seq![ip]
        } else {
            Seq::empty()
        },
        with_flag(Seq::empty(), Seq::empty(), wanted) == Seq::<Seq<char>>::empty(),
{
    assert(seq![ip].drop_last() =~= Seq::empty());
    assert(with_flag(seq![ip].drop_last(), seq![flag], wanted) =~= Seq::empty());
    assert(Seq::<Seq<char>>::empty().push(ip) =~= seq![ip]);
}

/// An address has a flag exactly if it stands somewhere with that flag. So a
/// server that was checked once is alive or failed as its own check found.
pub proof fn lemma_own_check_decides(
    addresses: Seq<Seq<char>>,
    flags: Seq<bool>,
    wanted: bool,
    ip: Seq<char>,
)
    requires
        addresses.len() == flags.len(),
    ensures
        with_flag(addresses, flags, wanted).contains(ip) <==> exists|i: int|
            0 <= i < addresses.len() && #[trigger] addresses[i] == ip && flags[i] == wanted,
        forall|i: int|
            0 <= i < addresses.len() && addresses[i] == ip && (forall|j: int|
                0 <= j < addresses.len() && j != i ==> #[trigger] addresses[j] != ip) ==> (
            with_flag(addresses, flags, wanted).contains(ip) <==> #[trigger] flags[i] == wanted),
    decreases addresses.len(),
{
    let found = with_flag(addresses, flags, wanted);
    if addresses.len() > 0 {
        let fewer = addresses.drop_last();
        let fewer_flags = flags.drop_last();
        let last = addresses.len() - 1;
        lemma_own_check_decides(fewer, fewer_flags, wanted, ip);
        lemma_later_flags_do_not_count(fewer, fewer_flags, flags, wanted);
        let before = with_flag(fewer, flags, wanted);
        if found.contains(ip) {
            let k = choose|k: int| 0 <= k < found.len() && found[k] == ip;
            if k < before.len() {
                assert(before[k] == ip);
                let i = choose|i: int|
                    0 <= i < fewer.len() && #[trigger] fewer[i] == ip && fewer_flags[i] == wanted;
                assert(addresses[i] == ip && flags[i] == wanted);
            } else {
                assert(addresses[last] == ip && flags[last] == wanted);
            }
        }
        if exists|i: int|
            0 <= i < addresses.len() && #[trigger] addresses[i] == ip && flags[i] == wanted {
            let i = choose|i: int|
                0 <= i < addresses.len() && #[trigger] addresses[i] == ip && flags[i] == wanted;
            if i < last {
                assert(fewer[i] == ip && fewer_flags[i] == wanted);
                let k = choose|k: int| 0 <= k < before.len() && before[k] == ip;
                assert(found[k] == ip);
            } else {
                assert(found[found.len() - 1] == ip);
            }
        }
    }
}

/// What `split_by_health` gives is made up of the servers at the places where
/// the check was good, in order, and of those at all other places, in order.
pub proof fn lemma_split_by_health(
    ips: Vec<String>,
    active: Vec<bool>,
    split: (Vec<String>, Vec<String>),
) -> (places: (Seq<int>, Seq<int>))
    requires
        active@.len() == ips@.len(),
        call_ensures(split_by_health, (ips, &active), split),
    ensures
        split.0@.len() == places.0.len(),
        split.1@.len() == places.1.len(),
        forall|k: int| 0 <= k < places.0.len() ==> (#[trigger] split.0@[k])@ == ips@[places.0[k]]@,
        forall|k: int| 0 <= k < places.1.len() ==> (#[trigger] split.1@[k])@ == ips@[places.1[k]]@,
        all_places(active@, true, places.0),
        all_places(active@, false, places.1),
{
    let alive = lemma_flagged_places(views(ips@), active@, true);
    let failed = lemma_flagged_places(views(ips@), active@, false);
    assert(views(split.0@).len() == split.0@.len());
    assert(views(split.1@).len() == split.1@.len());
    assert forall|k: int| 0 <= k < alive.len() implies (#[trigger] split.0@[k])@
        == ips@[alive[k]]@ by {
        assert(views(split.0@)[k] == split.0@[k]@);
    }
    assert forall|k: int| 0 <= k < failed.len() implies (#[trigger] split.1@[k])@
        == ips@[failed[k]]@ by {
        assert(views(split.1@)[k] == split.1@[k]@);
    }
    (alive, failed)
}

/// Whether these are all places with a flag, in ascending order.
pub open spec fn all_places(flags: Seq<bool>, wanted: bool, places: Seq<int>) -> bool {
    &&& forall|j: int, k: int| 0 <= j < k < places.len() ==> places[j] < places[k]
    &&& forall|k: int|
        0 <= k < places.len() ==> 0 <= #[trigger] places[k] < flags.len() && flags[places[k]]
            == wanted
    &&& forall|i: int| 0 <= i < flags.len() && #[trigger] flags[i] == wanted ==> places.contains(i)
}

/// The addresses with a flag are those at all places with the flag, in order.
pub proof fn lemma_flagged_places(
    addresses: Seq<Seq<char>>,
    flags: Seq<bool>,
    wanted: bool,
) -> (places: Seq<int>)
    requires
        addresses.len() == flags.len(),
    ensures
        all_places(flags, wanted, places),
        with_flag(addresses, flags, wanted).len() == places.len(),
        forall|k: int|
            0 <= k < places.len() ==> #[trigger] with_flag(addresses, flags, wanted)[k]
                == addresses[places[k]],
    decreases addresses.len(),
{
    if addresses.len() == 0 {
        Seq::empty()
    } else {
        let fewer = addresses.drop_last();
        let fewer_flags = flags.drop_last();
        let last = addresses.len() - 1;
        let before = lemma_flagged_places(fewer, fewer_flags, wanted);
        lemma_later_flags_do_not_count(fewer, fewer_flags, flags, wanted);
        let places = if flags[last] == wanted {
            before.push(last)
        } else {
            before
        };
        assert forall|i: int| 0 <= i < flags.len() && #[trigger] flags[i]
            == wanted implies places.contains(i) by {
            if i < last {
                assert(fewer_flags[i] == wanted);
                let k = choose|k: int| 0 <= k < before.len() && before[k] == i;
                assert(places[k] == i);
            } else {
                assert(places[places.len() - 1] == last);
            }
        }
        assert forall|k: int| 0 <= k < places.len() implies 0 <= #[trigger] places[k] < flags.len()
            && flags[places[k]] == wanted by {
            if k < before.len() {
                assert(fewer_flags[before[k]] == wanted);
            }
        }
        places
    }
}

/// A server that is taken out leaves all others in their places, but for the
/// last, which takes the place that has become free. One that is not there
/// leaves all of them.
pub proof fn lemma_taken_out_by_place(
    before: Seq<Seq<char>>,
    ip: Seq<char>,
    after: Seq<Seq<char>>,
    place: int,
)
    requires
        taken_out(before, ip, after),
        0 <= place < before.len() ==> before[place] == ip,
        forall|j: int| 0 <= j < place && j < before.len() ==> before[j] != ip,
        0 <= place <= before.len(),
    ensures
        place == before.len() ==> after == before,
        place < before.len() ==> {
            &&& after.len() == before.len() - 1
            &&& forall|j: int|
                0 <= j < after.len() ==> #[trigger] after[j] == if j == place {
                    before[before.len() - 1]
                } else {
                    before[j]
                }
        },
{
    if place < before.len() {
        assert(before[place] == ip);
        let idx = choose|idx: int| #[trigger]
            first_at(before, ip, idx) && after == swap_removed(before, idx);
        assert(idx == place) by {
            if idx < place {
                assert(before[idx] != ip);
            }
        }
    }
}

/// `check_targets` gives every live server and then every failed one, each in
/// its place.
pub proof fn lemma_check_targets(upstreams: Vec<String>, failed: Vec<String>, targets: Vec<String>)
    requires
        call_ensures(check_targets, (&upstreams, &failed), targets),
    ensures
        targets@.len() == upstreams@.len() + failed@.len(),
        forall|i: int| 0 <= i < upstreams@.len() ==> (#[trigger] targets@[i])@ == upstreams@[i]@,
        forall|i: int|
            upstreams@.len() <= i < targets@.len() ==> (#[trigger] targets@[i])@ == failed@[i
                - upstreams@.len()]@,
{
    assert(views(targets@).len() == targets@.len());
    assert forall|i: int| 0 <= i < targets@.len() implies (#[trigger] targets@[i])@ == (views(
        upstreams@,
    ) + views(failed@))[i] by {
        assert(views(targets@)[i] == targets@[i]@);
    }
}

/// A server that `pick_upstream` picks is one of the given ones, and one is
/// picked whenever there is one. `upstream_at` gives the server at an index.
pub proof fn lemma_picked_upstreams(
    upstreams: Vec<String>,
    idx: usize,
    picked: Option<String>,
    at: Option<String>,
)
    requires
        call_ensures(pick_upstream, (&upstreams,), picked),
        call_ensures(upstream_at, (&upstreams, idx), at),
    ensures
        picked is None <==> upstreams@.len() == 0,
        picked matches Some(ip) ==> exists|i: int|
            0 <= i < upstreams@.len() && (#[trigger] upstreams@[i])@ == ip@,
        at is Some <==> idx < upstreams@.len(),
        at matches Some(ip) ==> ip@ == upstreams@[idx as int]@,
{
    if let Some(ip) = picked {
        let i = choose|i: int| 0 <= i < views(upstreams@).len() && views(upstreams@)[i] == ip@;
        assert(upstreams@[i]@ == ip@);
    }
}

} // verus!
