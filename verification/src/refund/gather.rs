//! What the events of a return say of its scans and of its payments, found by
//! search and by grouping.

use vstd::prelude::*;
use crate::refund::canonical;
use crate::refund::model;
use crate::refund::model::{Event, EventView};
use crate::refund::owned;
use crate::refund::owned::{find_id, precedes};
use crate::refund::settle;
use crate::refund::settle::Scan;
use crate::sorting;
use crate::text;
use crate::text::same_text;

verus! {

/// The corrected scans of a return and what was wrong with its corrections.
pub struct Gathered<'a> {
    pub scans: Vec<Scan<'a>>,
    pub misdirected: bool,
    pub non_later: bool,
    pub orphaned: bool,
}

impl<'a> Gathered<'a> {
    pub open spec fn describes(
        self,
        events: Seq<EventView>,
        owner: Seq<char>,
    ) -> bool {
        &&& settle::scan_views(self.scans@) == model::scans_of(events, owner)
        &&& self.misdirected == exists|c: EventView| #[trigger]
            model::correction_of(events, c, owner) && model::misdirected(events, c)
        &&& self.non_later == exists|c: EventView| #[trigger]
            model::correction_of(events, c, owner) && model::not_later(events, c)
        &&& self.orphaned == exists|c: EventView| #[trigger]
            model::correction_of(events, c, owner) && model::orphaned(events, c)
    }
}

/// The places of the scans among the events of a return.
pub open spec fn scan_places(
    places: Seq<usize>,
    mine: Seq<usize>,
    events: Seq<EventView>,
    n: int,
) -> bool {
    &&& forall|s: int|
        0 <= s < places.len() ==> (#[trigger] places[s]) < events.len()
            && events[places[s] as int] is WarehouseScan && exists|k: int|
            0 <= k < n && #[trigger] mine[k] == places[s]
    &&& forall|a: int, b: int|
        0 <= a < b < places.len() ==> text::text_lt(
            events[#[trigger] places[a] as int].id(),
            events[#[trigger] places[b] as int].id(),
        )
    &&& forall|k: int|
        0 <= k < n && events[#[trigger] mine[k] as int] is WarehouseScan ==> places.contains(
            mine[k],
        )
}

pub fn collect_scans(events: &Vec<Event>, mine: &Vec<usize>, Ghost(owner): Ghost<Seq<char>>) -> (places:
    Vec<usize>)
    requires
        owned::owns(mine@, canonical::views(events@), owner),
    ensures
        scan_places(places@, mine@, canonical::views(events@), mine@.len() as int),
        places@.len() <= mine@.len(),
{
    let ghost all = canonical::views(events@);
    let mut places: Vec<usize> = Vec::new();
    let mut k: usize = 0;
    while k < mine.len()
        invariant
            k <= mine@.len(),
            all == canonical::views(events@),
            owned::owns(mine@, all, owner),
            scan_places(places@, mine@, all, k as int),
            places@.len() <= k,
        decreases mine@.len() - k,
    {
        let ghost before = places@;
        let place = mine[k];
        if let Event::WarehouseScan { .. } = &events[place] {
            places.push(place);
            proof {
                assert(places@[before.len() as int] == mine@[k as int]);
                assert forall|a: int, b: int| 0 <= a < b < places@.len() implies text::text_lt(
                    all[#[trigger] places@[a] as int].id(),
                    all[#[trigger] places@[b] as int].id(),
                ) by {
                    if b == before.len() {
                        let x = choose|x: int| 0 <= x < k && #[trigger] mine@[x] == before[a];
                        assert(text::text_lt(
                            all[mine@[x] as int].id(),
                            all[mine@[k as int] as int].id(),
                        ));
                    }
                }
                assert forall|s: int| 0 <= s < places@.len() implies (#[trigger] places@[s])
                    < all.len() && all[places@[s] as int] is WarehouseScan && exists|x: int|
                    0 <= x < k + 1 && #[trigger] mine@[x] == places@[s] by {
                    if s < before.len() {
                        let x = choose|x: int| 0 <= x < k && #[trigger] mine@[x] == before[s];
                        assert(mine@[x] == places@[s]);
                    } else {
                        assert(mine@[k as int] == places@[s]);
                    }
                }
                assert forall|x: int|
                    0 <= x < k + 1 && all[#[trigger] mine@[x] as int] is WarehouseScan implies places@.contains(
                mine@[x]) by {
                    if x < k {
                        assert(before.contains(mine@[x]));
                        let s = choose|s: int| 0 <= s < before.len() && before[s] == mine@[x];
                        assert(places@[s] == mine@[x]);
                    }
                }
            }
        } else {
            proof {
                assert forall|s: int| 0 <= s < places@.len() implies (#[trigger] places@[s])
                    < all.len() && all[places@[s] as int] is WarehouseScan && exists|x: int|
                    0 <= x < k + 1 && #[trigger] mine@[x] == places@[s] by {
                    let x = choose|x: int| 0 <= x < k && #[trigger] mine@[x] == before[s];
                    assert(mine@[x] == places@[s]);
                }
            }
        }
        k = k + 1;
    }
    places
}

/// What the scan places of a return say of trust.
pub proof fn lemma_scan_places(
    places: Seq<usize>,
    mine: Seq<usize>,
    events: Seq<EventView>,
    owner: Seq<char>,
)
    requires
        owned::owns(mine, events, owner),
        scan_places(places, mine, events, mine.len() as int),
    ensures
        forall|s: int|
            0 <= s < places.len() ==> model::trusted(events, events[#[trigger] places[s] as int])
                && events[places[s] as int].owner() == owner,
        forall|event: EventView| #[trigger]
            model::trusted(events, event) && event is WarehouseScan && event.owner() == owner ==> owned::owned(
                places,
                events,
                event,
            ),
{
    assert forall|s: int| 0 <= s < places.len() implies model::trusted(
        events,
        events[#[trigger] places[s] as int],
    ) && events[places[s] as int].owner() == owner by {
        let k = choose|k: int| 0 <= k < mine.len() && #[trigger] mine[k] == places[s];
        assert(model::trusted(events, events[mine[k] as int]));
    }
    assert forall|event: EventView| #[trigger]
        model::trusted(events, event) && event is WarehouseScan && event.owner() == owner implies owned::owned(
        places,
        events,
        event,
    ) by {
        assert(owned::owned(mine, events, event));
        let k = choose|k: int| 0 <= k < mine.len() && events[#[trigger] mine[k] as int] == event;
        assert(places.contains(mine[k]));
        let s = choose|s: int| 0 <= s < places.len() && places[s] == mine[k];
        assert(events[places[s] as int] == event);
    }
}

/// A correction among the first `n` events that applies to the scan.
spec fn applies(
    mine: Seq<usize>,
    events: Seq<EventView>,
    n: int,
    place: usize,
    scan: EventView,
) -> bool {
    &&& exists|k: int| 0 <= k < n && #[trigger] mine[k] == place
    &&& place < events.len()
    &&& model::corrects(events, events[place as int], scan)
    &&& model::happens_before(scan, events[place as int])
}

/// The latest of the first `n` events that corrects the scan.
spec fn best_so_far(
    mine: Seq<usize>,
    events: Seq<EventView>,
    n: int,
    best: Option<usize>,
    scan: EventView,
) -> bool {
    match best {
        None => forall|place: usize| !#[trigger] applies(mine, events, n, place, scan),
        Some(best) => {
            &&& applies(mine, events, n, best, scan)
            &&& forall|place: usize| #[trigger]
                applies(mine, events, n, place, scan) ==> events[place as int]
                    == events[best as int] || model::happens_before(
                    events[place as int],
                    events[best as int],
                )
        },
    }
}

proof fn lemma_best_done(
    mine: Seq<usize>,
    events: Seq<EventView>,
    owner: Seq<char>,
    best: Option<usize>,
    scan: EventView,
)
    requires
        owned::owns(mine, events, owner),
        scan.owner() == owner,
        best_so_far(mine, events, mine.len() as int, best, scan),
    ensures
        match best {
            None => !exists|c: EventView| #[trigger] model::is_latest(events, c, scan),
            Some(place) => model::is_latest(events, events[place as int], scan),
        },
{
    assert forall|c: EventView| #[trigger] model::corrects(events, c, scan) && model::happens_before(
        scan,
        c,
    ) implies exists|place: usize|
        #![trigger applies(mine, events, mine.len() as int, place, scan)]
        applies(mine, events, mine.len() as int, place, scan) && events[place as int] == c by {
        assert(owned::owned(mine, events, c));
        let k = choose|k: int| 0 <= k < mine.len() && events[#[trigger] mine[k] as int] == c;
        assert(applies(mine, events, mine.len() as int, mine[k], scan));
    }
    match best {
        None => {
            if exists|c: EventView| #[trigger] model::is_latest(events, c, scan) {
                let c = choose|c: EventView| #[trigger] model::is_latest(events, c, scan);
                assert(model::corrects(events, c, scan) && model::happens_before(scan, c));
            }
        },
        Some(place) => {},
    }
}

proof fn lemma_best_step(
    mine: Seq<usize>,
    events: Seq<EventView>,
    owner: Seq<char>,
    n: int,
    best: Option<usize>,
    scan: EventView,
    next: Option<usize>,
)
    requires
        owned::owns(mine, events, owner),
        0 <= n < mine.len(),
        best_so_far(mine, events, n, best, scan),
        ({
            let here = events[mine[n] as int];
            if model::corrects(events, here, scan) && model::happens_before(scan, here) {
                if best is None || model::happens_before(events[best->0 as int], here) {
                    next == Some(mine[n])
                } else {
                    next == best
                }
            } else {
                next == best
            }
        }),
    ensures
        best_so_far(mine, events, n + 1, next, scan),
{
    let here = events[mine[n] as int];
    assert forall|place: usize| #[trigger] applies(mine, events, n + 1, place, scan) implies applies(
        mine,
        events,
        n,
        place,
        scan,
    ) || place == mine[n] by {
        let k = choose|k: int| 0 <= k < n + 1 && #[trigger] mine[k] == place;
        if k < n {
            assert(mine[k] == place);
        }
    }
    assert forall|place: usize| #[trigger] applies(mine, events, n, place, scan) implies applies(
        mine,
        events,
        n + 1,
        place,
        scan,
    ) by {
        let k = choose|k: int| 0 <= k < n && #[trigger] mine[k] == place;
        assert(mine[k] == place);
    }
    if model::corrects(events, here, scan) && model::happens_before(scan, here) {
        assert(applies(mine, events, n + 1, mine[n], scan));
        if let Some(place) = best {
            let old = events[place as int];
            let k = choose|k: int| 0 <= k < n && #[trigger] mine[k] == place;
            assert(text::text_lt(events[mine[k] as int].id(), events[mine[n] as int].id()));
            owned::lemma_happens_before(old, here, old);
            if model::happens_before(old, here) {
                assert forall|other: usize| #[trigger]
                    applies(mine, events, n + 1, other, scan) implies events[other as int] == here
                    || model::happens_before(events[other as int], here) by {
                    if applies(mine, events, n, other, scan) {
                        owned::lemma_happens_before(events[other as int], old, here);
                    }
                }
            }
        } else {
            assert forall|other: usize| #[trigger]
                applies(mine, events, n + 1, other, scan) implies events[other as int] == here by {
                if applies(mine, events, n, other, scan) {
                    assert(false);
                }
            }
        }
    }
}

/// The scan with its latest correction, if it has one.
pub fn corrected_scan<'a>(
    events: &'a Vec<Event>,
    place: usize,
    best: Option<usize>,
) -> (scan: Scan<'a>)
    requires
        place < events@.len(),
        events@[place as int] is WarehouseScan,
        best matches Some(b) ==> b < events@.len() && events@[b as int] is Correction,
        match best {
            None => !exists|c: EventView| #[trigger]
                model::is_latest(canonical::views(events@), c, canonical::views(events@)[place as int]),
            Some(b) => model::is_latest(
                canonical::views(events@),
                canonical::views(events@)[b as int],
                canonical::views(events@)[place as int],
            ),
        },
    ensures
        scan@ == model::scan_of(canonical::views(events@), canonical::views(events@)[place as int]),
{
    let ghost all = canonical::views(events@);
    let event_id = events[place].event_id();
    match best {
        Some(b) => {
            proof {
                owned::lemma_scan_corrected(all, all[place as int], all[b as int]);
            }
            if let Event::Correction { event_id: id, replacement_sku, replacement_quantity, .. } =
                &events[b] {
                let scan = Scan {
                    event_id,
                    sku: replacement_sku.as_str(),
                    quantity: *replacement_quantity,
                    correction: Some(id.as_str()),
                };
                assert(scan@.provenance =~= model::scan_of(all, all[place as int]).provenance);
                return scan;
            }
        },
        None => {
            if let Event::WarehouseScan { sku, quantity, .. } = &events[place] {
                let scan = Scan {
                    event_id,
                    sku: sku.as_str(),
                    quantity: *quantity,
                    correction: None,
                };
                assert(scan@.provenance =~= model::scan_of(all, all[place as int]).provenance);
                return scan;
            }
        },
    }
    assert(false);
    Scan { event_id, sku: event_id, quantity: 0, correction: None }
}

/// For each scan the latest correction, and what was wrong with the others.
struct Resolved {
    best: Vec<Option<usize>>,
    misdirected: bool,
    non_later: bool,
    orphaned: bool,
}

/// What is known of the scans of a return.
spec fn scans_known(
    places: Seq<usize>,
    mine: Seq<usize>,
    events: Seq<EventView>,
    owner: Seq<char>,
) -> bool {
    &&& owned::owns(mine, events, owner)
    &&& scan_places(places, mine, events, mine.len() as int)
    &&& forall|x: int|
        0 <= x < places.len() ==> model::trusted(events, events[#[trigger] places[x] as int])
            && events[places[x] as int].owner() == owner
    &&& forall|event: EventView| #[trigger]
        model::trusted(events, event) && event is WarehouseScan && event.owner() == owner ==> owned::owned(
            places,
            events,
            event,
        )
}

/// Looks up the target of every correction.
fn resolve_corrections(
    events: &Vec<Event>,
    accepted: &Vec<usize>,
    mine: &Vec<usize>,
    places: &Vec<usize>,
    Ghost(owner): Ghost<Seq<char>>,
) -> (resolved: Resolved)
    requires
        canonical::selects(accepted@, canonical::views(events@)),
        scans_known(places@, mine@, canonical::views(events@), owner),
    ensures
        resolved.best@.len() == places@.len(),
        forall|x: int|
            0 <= x < places@.len() ==> best_so_far(
                mine@,
                canonical::views(events@),
                mine@.len() as int,
                #[trigger] resolved.best@[x],
                canonical::views(events@)[places@[x] as int],
            ),
        resolved.misdirected == exists|j: int|
            0 <= j < mine@.len() && canonical::views(events@)[#[trigger] mine@[j] as int] is Correction
                && model::misdirected(
                canonical::views(events@),
                canonical::views(events@)[mine@[j] as int],
            ),
        resolved.non_later == exists|j: int|
            0 <= j < mine@.len() && canonical::views(events@)[#[trigger] mine@[j] as int] is Correction
                && model::not_later(canonical::views(events@), canonical::views(events@)[mine@[j] as int]),
        resolved.orphaned == exists|j: int|
            0 <= j < mine@.len() && canonical::views(events@)[#[trigger] mine@[j] as int] is Correction
                && model::orphaned(
                canonical::views(events@),
                canonical::views(events@)[mine@[j] as int],
            ),
{
    let ghost all = canonical::views(events@);
    let mut best: Vec<Option<usize>> = Vec::new();
    let mut s: usize = 0;
    while s < places.len()
        invariant
            s <= places@.len(),
            best@.len() == s,
            forall|x: int| 0 <= x < s ==> (#[trigger] best@[x]) is None,
        decreases places@.len() - s,
    {
        best.push(None);
        s = s + 1;
    }
    proof {
        assert forall|x: int| 0 <= x < places@.len() implies best_so_far(
            mine@,
            all,
            0,
            #[trigger] best@[x],
            all[places@[x] as int],
        ) by {}
    }
    let mut misdirected_any = false;
    let mut non_later = false;
    let mut orphaned_any = false;
    let mut k: usize = 0;
    while k < mine.len()
        invariant
            k <= mine@.len(),
            all == canonical::views(events@),
            canonical::selects(accepted@, all),
            scans_known(places@, mine@, all, owner),
            best@.len() == places@.len(),
            forall|x: int|
                0 <= x < places@.len() ==> best_so_far(
                    mine@,
                    all,
                    k as int,
                    #[trigger] best@[x],
                    all[places@[x] as int],
                ),
            misdirected_any == exists|j: int|
                0 <= j < k && all[#[trigger] mine@[j] as int] is Correction && model::misdirected(
                    all,
                    all[mine@[j] as int],
                ),
            non_later == exists|j: int|
                0 <= j < k && all[#[trigger] mine@[j] as int] is Correction && model::not_later(
                    all,
                    all[mine@[j] as int],
                ),
            orphaned_any == exists|j: int|
                0 <= j < k && all[#[trigger] mine@[j] as int] is Correction && model::orphaned(
                    all,
                    all[mine@[j] as int],
                ),
        decreases mine@.len() - k,
    {
        let place = mine[k];
        let ghost here = all[place as int];
        let ghost (m0, n0, o0) = (misdirected_any, non_later, orphaned_any);
        let ghost best_before = best@;
        assert(here.owner() == owner);
        if let Event::Correction { target_event_id, .. } = &events[place] {
            let target = target_event_id.as_str();
            let found = find_id(events, accepted, target);
            let named: Option<usize> = match found {
                Some(position) => {
                    if let Event::WarehouseScan { .. } = &events[accepted[position]] {
                        Some(accepted[position])
                    } else {
                        None
                    }
                },
                None => None,
            };
            proof {
                lemma_target(accepted@, all, here, found, named);
            }
            match named {
                None => {
                    orphaned_any = true;
                    assert(all[mine@[k as int] as int] is Correction);
                    proof {
                        assert forall|x: int| 0 <= x < places@.len() implies best_so_far(
                            mine@,
                            all,
                            k + 1,
                            #[trigger] best@[x],
                            all[places@[x] as int],
                        ) by {
                            let scan = all[places@[x] as int];
                            if model::corrects(all, here, scan) {
                                assert(model::trusted(all, scan) && scan is WarehouseScan);
                            }
                            lemma_best_step(mine@, all, owner, k as int, best@[x], scan, best@[x]);
                        }
                    }
                },
                Some(scan_place) => {
                    let ghost scan = all[scan_place as int];
                    if !same_text(events[scan_place].return_id(), events[place].return_id()) {
                        misdirected_any = true;
                        assert(all[mine@[k as int] as int] is Correction);
                        proof {
                            assert forall|x: int| 0 <= x < places@.len() implies best_so_far(
                                mine@,
                                all,
                                k + 1,
                                #[trigger] best@[x],
                                all[places@[x] as int],
                            ) by {
                                let other = all[places@[x] as int];
                                if model::corrects(all, here, other) {
                                    owned::lemma_trusted_unique(all, other, scan);
                                }
                                lemma_best_step(
                                    mine@,
                                    all,
                                    owner,
                                    k as int,
                                    best@[x],
                                    other,
                                    best@[x],
                                );
                            }
                        }
                    } else if !precedes(&events[scan_place], &events[place]) {
                        non_later = true;
                        assert(all[mine@[k as int] as int] is Correction);
                        proof {
                            assert forall|x: int| 0 <= x < places@.len() implies best_so_far(
                                mine@,
                                all,
                                k + 1,
                                #[trigger] best@[x],
                                all[places@[x] as int],
                            ) by {
                                let other = all[places@[x] as int];
                                if model::corrects(all, here, other) {
                                    owned::lemma_trusted_unique(all, other, scan);
                                }
                                lemma_best_step(
                                    mine@,
                                    all,
                                    owner,
                                    k as int,
                                    best@[x],
                                    other,
                                    best@[x],
                                );
                            }
                        }
                    } else {
                        let position = find_id(events, places, target);
                        proof {
                            assert(owned::owned(places@, all, scan));
                            let x = choose|x: int|
                                0 <= x < places@.len() && all[#[trigger] places@[x] as int] == scan;
                            assert(events@[places@[x] as int]@.id() == target@);
                        }
                        if let Some(position) = position {
                            proof {
                                assert(model::trusted(all, all[places@[position as int] as int]));
                                owned::lemma_trusted_unique(all, all[places@[position as int] as int], scan);
                            }
                            let later = match best[position] {
                                None => true,
                                Some(old) => {
                                    assert(best_so_far(
                                        mine@,
                                        all,
                                        k as int,
                                        best@[position as int],
                                        scan,
                                    ));
                                    precedes(&events[old], &events[place])
                                },
                            };
                            if later {
                                best.set(position, Some(place));
                            }
                            proof {
                                assert forall|x: int| 0 <= x < places@.len() implies best_so_far(
                                    mine@,
                                    all,
                                    k + 1,
                                    #[trigger] best@[x],
                                    all[places@[x] as int],
                                ) by {
                                    let other = all[places@[x] as int];
                                    assert(best_so_far(
                                        mine@,
                                        all,
                                        k as int,
                                        best_before[x],
                                        other,
                                    ));
                                    if x != position {
                                        if model::corrects(all, here, other) {
                                            owned::lemma_trusted_unique(all, other, scan);
                                            if x < position {
                                                assert(text::text_lt(
                                                    all[places@[x] as int].id(),
                                                    all[places@[position as int] as int].id(),
                                                ));
                                            } else {
                                                assert(text::text_lt(
                                                    all[places@[position as int] as int].id(),
                                                    all[places@[x] as int].id(),
                                                ));
                                            }
                                        }
                                    } else {
                                        assert(model::corrects(all, here, other));
                                    }
                                    lemma_best_step(
                                        mine@,
                                        all,
                                        owner,
                                        k as int,
                                        best_before[x],
                                        other,
                                        best@[x],
                                    );
                                }
                            }
                        }
                    }
                },
            }
        } else {
            proof {
                assert forall|x: int| 0 <= x < places@.len() implies best_so_far(
                    mine@,
                    all,
                    k + 1,
                    #[trigger] best@[x],
                    all[places@[x] as int],
                ) by {
                    lemma_best_step(
                        mine@,
                        all,
                        owner,
                        k as int,
                        best@[x],
                        all[places@[x] as int],
                        best@[x],
                    );
                }
            }
        }
        proof {
            let current = mine@[k as int];
        }
        k = k + 1;
    }
    Resolved { best, misdirected: misdirected_any, non_later, orphaned: orphaned_any }
}

/// The scans with their latest corrections applied.
fn apply_corrections<'a>(
    events: &'a Vec<Event>,
    mine: &Vec<usize>,
    places: &Vec<usize>,
    best: &Vec<Option<usize>>,
    Ghost(owner): Ghost<Seq<char>>,
) -> (scans: Vec<Scan<'a>>)
    requires
        scans_known(places@, mine@, canonical::views(events@), owner),
        best@.len() == places@.len(),
        forall|x: int|
            0 <= x < places@.len() ==> best_so_far(
                mine@,
                canonical::views(events@),
                mine@.len() as int,
                #[trigger] best@[x],
                canonical::views(events@)[places@[x] as int],
            ),
    ensures
        settle::scan_views(scans@) == model::scans_of(canonical::views(events@), owner),
        scans@.len() == places@.len(),
{
    let ghost all = canonical::views(events@);
    let mut scans: Vec<Scan<'a>> = Vec::new();
    let mut s: usize = 0;
    while s < places.len()
        invariant
            s <= places@.len(),
            all == canonical::views(events@),
            scans_known(places@, mine@, all, owner),
            best@.len() == places@.len(),
            forall|x: int|
                0 <= x < places@.len() ==> best_so_far(
                    mine@,
                    all,
                    mine@.len() as int,
                    #[trigger] best@[x],
                    all[places@[x] as int],
                ),
            scans@.len() == s,
            forall|x: int|
                0 <= x < s ==> (#[trigger] scans@[x])@ == model::scan_of(all, all[places@[x] as int]),
        decreases places@.len() - s,
    {
        proof {
            assert(best_so_far(
                mine@,
                all,
                mine@.len() as int,
                best@[s as int],
                all[places@[s as int] as int],
            ));
            lemma_best_done(mine@, all, owner, best@[s as int], all[places@[s as int] as int]);
        }
        scans.push(corrected_scan(events, places[s], best[s]));
        s = s + 1;
    }
    proof {
        owned::lemma_scans_listed(all, owner, places@, settle::scan_views(scans@));
    }
    scans
}

/// Finds the scans of a return, each corrected by the latest correction that
/// follows it, by looking up the target of every correction.
pub fn gather_scans<'a>(
    events: &'a Vec<Event>,
    accepted: &Vec<usize>,
    mine: &Vec<usize>,
    Ghost(owner): Ghost<Seq<char>>,
) -> (gathered: Gathered<'a>)
    requires
        canonical::selects(accepted@, canonical::views(events@)),
        owned::owns(mine@, canonical::views(events@), owner),
    ensures
        gathered.describes(canonical::views(events@), owner),
        gathered.scans@.len() <= mine@.len(),
{
    let places = collect_scans(events, mine, Ghost(owner));
    proof {
        lemma_scan_places(places@, mine@, canonical::views(events@), owner);
    }
    let resolved = resolve_corrections(events, accepted, mine, &places, Ghost(owner));
    let scans = apply_corrections(events, mine, &places, &resolved.best, Ghost(owner));
    proof {
        lemma_three_flags(
            mine@,
            canonical::views(events@),
            owner,
            resolved.misdirected,
            resolved.non_later,
            resolved.orphaned,
        );
    }
    Gathered {
        scans,
        misdirected: resolved.misdirected,
        non_later: resolved.non_later,
        orphaned: resolved.orphaned,
    }
}

/// What a look-up of a correction's target shows.
proof fn lemma_target(
    accepted: Seq<usize>,
    events: Seq<EventView>,
    correction: EventView,
    found: Option<usize>,
    named: Option<usize>,
)
    requires
        canonical::selects(accepted, events),
        correction is Correction,
        model::trusted(events, correction),
        match found {
            Some(k) => k < accepted.len() && events[accepted[k as int] as int].id()
                == correction->target_event_id,
            None => forall|k: int|
                0 <= k < accepted.len() ==> events[#[trigger] accepted[k] as int].id()
                    != correction->target_event_id,
        },
        named == (match found {
            Some(k) => if events[accepted[k as int] as int] is WarehouseScan {
                Some(accepted[k as int])
            } else {
                None
            },
            None => None,
        }),
    ensures
        model::orphaned(events, correction) == (named is None),
        match named {
            Some(place) => {
                let scan = events[place as int];
                &&& place < events.len()
                &&& model::trusted(events, scan)
                &&& scan is WarehouseScan
                &&& scan.id() == correction->target_event_id
                &&& model::misdirected(events, correction) == (scan.owner()
                    != correction.owner())
                &&& model::not_later(events, correction) == (scan.owner() == correction.owner()
                    && !model::happens_before(scan, correction))
            },
            None => {
                &&& !model::misdirected(events, correction)
                &&& !model::not_later(events, correction)
                &&& forall|scan: EventView| #[trigger]
                    model::trusted(events, scan) && scan is WarehouseScan ==> scan.id()
                        != correction->target_event_id
            },
        },
{
    assert forall|scan: EventView| #[trigger]
        model::trusted(events, scan) && scan.id() == correction->target_event_id implies found is Some
        && scan == events[accepted[found->0 as int] as int] by {
        let k = choose|k: int|
            0 <= k < accepted.len() && events[#[trigger] accepted[k] as int] == scan;
        assert(events[accepted[k] as int].id() == correction->target_event_id);
        if found is Some {
            let f = found->0 as int;
            assert(model::trusted(events, events[accepted[f] as int]));
            owned::lemma_trusted_unique(events, scan, events[accepted[f] as int]);
        }
    }
    if let Some(place) = named {
        let scan = events[place as int];
        assert(accepted[found->0 as int] == place);
        assert(model::trusted(events, scan));
    }
}

proof fn lemma_flag_over_mine(
    mine: Seq<usize>,
    events: Seq<EventView>,
    owner: Seq<char>,
    wrong: spec_fn(EventView) -> bool,
)
    requires
        owned::owns(mine, events, owner),
    ensures
        (exists|c: EventView| #[trigger] model::correction_of(events, c, owner) && wrong(c)) == (exists|
            j: int,
        |
            0 <= j < mine.len() && events[#[trigger] mine[j] as int] is Correction && wrong(
                events[mine[j] as int],
            )),
{
    if exists|c: EventView| #[trigger] model::correction_of(events, c, owner) && wrong(c) {
        let c = choose|c: EventView| #[trigger] model::correction_of(events, c, owner) && wrong(c);
        assert(owned::owned(mine, events, c));
        let j = choose|j: int| 0 <= j < mine.len() && events[#[trigger] mine[j] as int] == c;
        assert(events[mine[j] as int] is Correction);
    }
    if exists|j: int|
        0 <= j < mine.len() && events[#[trigger] mine[j] as int] is Correction && wrong(
            events[mine[j] as int],
        ) {
        let j = choose|j: int|
            0 <= j < mine.len() && events[#[trigger] mine[j] as int] is Correction && wrong(
                events[mine[j] as int],
            );
        assert(model::correction_of(events, events[mine[j] as int], owner));
    }
}

/// Flags found over the events of a return are the flags of its corrections.
pub proof fn lemma_three_flags(
    mine: Seq<usize>,
    events: Seq<EventView>,
    owner: Seq<char>,
    misdirected_any: bool,
    non_later: bool,
    orphaned_any: bool,
)
    requires
        owned::owns(mine, events, owner),
        misdirected_any == exists|j: int|
            0 <= j < mine.len() && events[#[trigger] mine[j] as int] is Correction && model::misdirected(
                events,
                events[mine[j] as int],
            ),
        non_later == exists|j: int|
            0 <= j < mine.len() && events[#[trigger] mine[j] as int] is Correction && model::not_later(
                events,
                events[mine[j] as int],
            ),
        orphaned_any == exists|j: int|
            0 <= j < mine.len() && events[#[trigger] mine[j] as int] is Correction && model::orphaned(
                events,
                events[mine[j] as int],
            ),
    ensures
        misdirected_any == exists|c: EventView| #[trigger]
            model::correction_of(events, c, owner) && model::misdirected(events, c),
        non_later == exists|c: EventView| #[trigger]
            model::correction_of(events, c, owner) && model::not_later(events, c),
        orphaned_any == exists|c: EventView| #[trigger]
            model::correction_of(events, c, owner) && model::orphaned(events, c),
{
    let a = |c: EventView| model::misdirected(events, c);
    let b = |c: EventView| model::not_later(events, c);
    let d = |c: EventView| model::orphaned(events, c);
    lemma_flag_over_mine(mine, events, owner, a);
    lemma_flag_over_mine(mine, events, owner, b);
    lemma_flag_over_mine(mine, events, owner, d);
    assert(misdirected_any == exists|j: int|
        0 <= j < mine.len() && events[#[trigger] mine[j] as int] is Correction && a(
            events[mine[j] as int],
        ));
    assert(non_later == exists|j: int|
        0 <= j < mine.len() && events[#[trigger] mine[j] as int] is Correction && b(
            events[mine[j] as int],
        ));
    assert(orphaned_any == exists|j: int|
        0 <= j < mine.len() && events[#[trigger] mine[j] as int] is Correction && d(
            events[mine[j] as int],
        ));
    assert((exists|c: EventView| #[trigger] model::correction_of(events, c, owner) && a(c)) == exists|
        c: EventView,
    | #[trigger]
        model::correction_of(events, c, owner) && model::misdirected(events, c));
    assert((exists|c: EventView| #[trigger] model::correction_of(events, c, owner) && b(c)) == exists|
        c: EventView,
    | #[trigger]
        model::correction_of(events, c, owner) && model::not_later(events, c));
    assert((exists|c: EventView| #[trigger] model::correction_of(events, c, owner) && d(c)) == exists|
        c: EventView,
    | #[trigger]
        model::correction_of(events, c, owner) && model::orphaned(events, c));
}

/// The latest correction of one scan, found by looking at every event.
fn latest_by_scanning(
    events: &Vec<Event>,
    mine: &Vec<usize>,
    place: usize,
    Ghost(owner): Ghost<Seq<char>>,
) -> (best: Option<usize>)
    requires
        owned::owns(mine@, canonical::views(events@), owner),
        place < events@.len(),
        canonical::views(events@)[place as int].owner() == owner,
    ensures
        best_so_far(
            mine@,
            canonical::views(events@),
            mine@.len() as int,
            best,
            canonical::views(events@)[place as int],
        ),
{
    let ghost all = canonical::views(events@);
    let ghost scan = all[place as int];
    let id = events[place].event_id();
    let mut best: Option<usize> = None;
    let mut k: usize = 0;
    while k < mine.len()
        invariant
            k <= mine@.len(),
            all == canonical::views(events@),
            owned::owns(mine@, all, owner),
            place < events@.len(),
            scan == all[place as int],
            scan.owner() == owner,
            id@ == scan.id(),
            best_so_far(mine@, all, k as int, best, scan),
        decreases mine@.len() - k,
    {
        let here = mine[k];
        let ghost before = best;
        if let Event::Correction { target_event_id, .. } = &events[here] {
            if same_text(target_event_id.as_str(), id) && precedes(&events[place], &events[here]) {
                let later = match best {
                    None => true,
                    Some(old) => precedes(&events[old], &events[here]),
                };
                if later {
                    best = Some(here);
                }
            }
        }
        proof {
            lemma_best_step(mine@, all, owner, k as int, before, scan, best);
        }
        k = k + 1;
    }
    best
}

/// What is wrong with a correction.
pub struct Faults {
    pub orphaned: bool,
    pub misdirected: bool,
    pub not_later: bool,
}

/// What is wrong with one correction, found by looking at every accepted event.
fn fault_by_scanning(
    events: &Vec<Event>,
    accepted: &Vec<usize>,
    place: usize,
    target: &str,
) -> (faults: Faults)
    requires
        canonical::selects(accepted@, canonical::views(events@)),
        place < events@.len(),
        canonical::views(events@)[place as int] is Correction,
        target@ == canonical::views(events@)[place as int]->target_event_id,
    ensures
        faults.orphaned == model::orphaned(
            canonical::views(events@),
            canonical::views(events@)[place as int],
        ),
        faults.misdirected == model::misdirected(
            canonical::views(events@),
            canonical::views(events@)[place as int],
        ),
        faults.not_later == model::not_later(
            canonical::views(events@),
            canonical::views(events@)[place as int],
        ),
{
    let ghost all = canonical::views(events@);
    let ghost correction = all[place as int];
    let mut found = false;
    let mut foreign = false;
    let mut not_after = false;
    let mut s: usize = 0;
    while s < accepted.len()
        invariant
            s <= accepted@.len(),
            all == canonical::views(events@),
            correction == all[place as int],
            place < events@.len(),
            target@ == correction->target_event_id,
            canonical::selects(accepted@, all),
            found == exists|x: int| 0 <= x < s && names(all, #[trigger] accepted@[x], target@),
            foreign == exists|x: int|
                0 <= x < s && names(all, #[trigger] accepted@[x], target@)
                    && all[accepted@[x] as int].owner() != correction.owner(),
            not_after == exists|x: int|
                0 <= x < s && names(all, #[trigger] accepted@[x], target@)
                    && all[accepted@[x] as int].owner() == correction.owner()
                    && !model::happens_before(all[accepted@[x] as int], correction),
        decreases accepted@.len() - s,
    {
        let scan = accepted[s];
        let ghost here = accepted@[s as int];
        assert(all[here as int] == events@[here as int]@);
        if let Event::WarehouseScan { .. } = &events[scan] {
            if same_text(events[scan].event_id(), target) {
                assert(names(all, here, target@));
                found = true;
                if !same_text(events[scan].return_id(), events[place].return_id()) {
                    foreign = true;
                } else if !precedes(&events[scan], &events[place]) {
                    not_after = true;
                }
            }
        }
        s = s + 1;
    }
    proof {
        assert forall|scan: EventView| #[trigger]
            model::trusted(all, scan) && scan is WarehouseScan && scan.id()
                == target@ implies exists|x: int|
            0 <= x < accepted@.len() && names(all, #[trigger] accepted@[x], target@)
                && all[accepted@[x] as int] == scan by {
            let x = choose|x: int|
                0 <= x < accepted@.len() && all[#[trigger] accepted@[x] as int] == scan;
            assert(names(all, accepted@[x], target@));
        }
        assert forall|x: int|
            0 <= x < accepted@.len() && names(
                all,
                #[trigger] accepted@[x],
                target@,
            ) implies model::trusted(all, all[accepted@[x] as int]) by {}
    }
    Faults { orphaned: !found, misdirected: foreign, not_later: not_after }
}

/// A place holds a scan of an identity.
spec fn names(events: Seq<EventView>, place: usize, id: Seq<char>) -> bool {
    events[place as int] is WarehouseScan && events[place as int].id() == id
}

/// Finds the scans of a return and their corrections by repeated scans.
pub fn scan_for_scans<'a>(
    events: &'a Vec<Event>,
    accepted: &Vec<usize>,
    mine: &Vec<usize>,
    Ghost(owner): Ghost<Seq<char>>,
) -> (gathered: Gathered<'a>)
    requires
        canonical::selects(accepted@, canonical::views(events@)),
        owned::owns(mine@, canonical::views(events@), owner),
    ensures
        gathered.describes(canonical::views(events@), owner),
        gathered.scans@.len() <= mine@.len(),
{
    let ghost all = canonical::views(events@);
    let places = collect_scans(events, mine, Ghost(owner));
    proof {
        lemma_scan_places(places@, mine@, all, owner);
    }
    let mut best: Vec<Option<usize>> = Vec::new();
    let mut s: usize = 0;
    while s < places.len()
        invariant
            s <= places@.len(),
            all == canonical::views(events@),
            scans_known(places@, mine@, all, owner),
            best@.len() == s,
            forall|x: int|
                0 <= x < s ==> best_so_far(
                    mine@,
                    all,
                    mine@.len() as int,
                    #[trigger] best@[x],
                    all[places@[x] as int],
                ),
        decreases places@.len() - s,
    {
        best.push(latest_by_scanning(events, mine, places[s], Ghost(owner)));
        s = s + 1;
    }
    let scans = apply_corrections(events, mine, &places, &best, Ghost(owner));
    let mut misdirected_any = false;
    let mut non_later = false;
    let mut orphaned_any = false;
    let mut k: usize = 0;
    while k < mine.len()
        invariant
            k <= mine@.len(),
            all == canonical::views(events@),
            canonical::selects(accepted@, all),
            scans_known(places@, mine@, all, owner),
            non_later == exists|j: int|
                0 <= j < k && all[#[trigger] mine@[j] as int] is Correction && model::not_later(
                    all,
                    all[mine@[j] as int],
                ),
            orphaned_any == exists|j: int|
                0 <= j < k && all[#[trigger] mine@[j] as int] is Correction && model::orphaned(
                    all,
                    all[mine@[j] as int],
                ),
            misdirected_any == exists|j: int|
                0 <= j < k && all[#[trigger] mine@[j] as int] is Correction && model::misdirected(
                    all,
                    all[mine@[j] as int],
                ),
        decreases mine@.len() - k,
    {
        let place = mine[k];
        if let Event::Correction { target_event_id, .. } = &events[place] {
            let faults = fault_by_scanning(events, accepted, place, target_event_id.as_str());
            let ghost here = all[mine@[k as int] as int];
            assert(here is Correction);
            if faults.orphaned {
                orphaned_any = true;
            }
            if faults.misdirected {
                misdirected_any = true;
            }
            if faults.not_later {
                non_later = true;
            }
        }
        k = k + 1;
    }
    proof {
        lemma_three_flags(mine@, all, owner, misdirected_any, non_later, orphaned_any);
    }
    Gathered { scans, misdirected: misdirected_any, non_later, orphaned: orphaned_any }
}

} // verus!
