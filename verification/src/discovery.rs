//! The list of the games that masters advertise, as a node sees it that
//! looks for a game to join.

use vstd::prelude::*;
use crate::channel::{elapsed, elapsed_ms};
use crate::message::{announcement_views, AnnouncementView, GameMessage, MessageView, Payload};
use crate::message::PayloadView;
use crate::text::same_text;
use crate::ring::{clamp_selected, clamped, next_on_ring, prev_on_ring, ring_next, ring_prev};
use crate::text::copy_text;

verus! {

/// The time after which an advertisement that was not repeated is dropped,
/// in milliseconds.
pub const LISTING_LIFETIME_MS: u64 = 1000;

/// A game that can be joined: its name and the `host:port` of its master.
#[derive(Clone, Debug)]
pub struct GameOption {
    pub name: String,
    pub addr: String,
    /// When the game was last advertised.
    pub seen: u64,
}

/// The mathematical value of a [`GameOption`].
pub struct OptionView {
    pub name: Seq<char>,
    pub addr: Seq<char>,
    pub seen: u64,
}

impl View for GameOption {
    type V = OptionView;

    open spec fn view(&self) -> OptionView {
        OptionView { name: self.name@, addr: self.addr@, seen: self.seen }
    }
}

/// The values of a list of games, element by element.
pub open spec fn option_views(s: Seq<GameOption>) -> Seq<OptionView> {
    Seq::new(s.len(), |i: int| s[i]@)
}

/// The index of the first game with the given name and master.
pub open spec fn option_index(list: Seq<OptionView>, name: Seq<char>, addr: Seq<char>) -> Option<int>
    decreases list.len(),
{
    if list.len() == 0 {
        None
    } else {
        match option_index(list.drop_last(), name, addr) {
            Some(i) => Some(i),
            None => if list.last().name == name && list.last().addr == addr {
                Some(list.len() - 1)
            } else {
                None
            },
        }
    }
}

/// An index found in a prefix is the index in the whole list.
pub proof fn lemma_option_index_prefix(list: Seq<OptionView>, n: int, name: Seq<char>, addr: Seq<char>)
    requires
        0 <= n <= list.len(),
        option_index(list.subrange(0, n), name, addr) is Some,
    ensures
        option_index(list, name, addr) == option_index(list.subrange(0, n), name, addr),
    decreases list.len() - n,
{
    if n < list.len() {
        assert(list.subrange(0, n + 1).drop_last() =~= list.subrange(0, n));
        lemma_option_index_prefix(list, n + 1, name, addr);
    } else {
        assert(list.subrange(0, n) =~= list);
    }
}

/// The list after the game has been advertised at the time `now`: a game
/// that is on the list is seen anew, another one joins the list.
pub open spec fn noted(list: Seq<OptionView>, name: Seq<char>, addr: Seq<char>, now: u64) -> Seq<
    OptionView,
> {
    match option_index(list, name, addr) {
        Some(i) => list.update(i, OptionView { seen: now, ..list[i] }),
        None => list.push(OptionView { name, addr, seen: now }),
    }
}

/// The list after the master at `addr` has advertised the given games:
/// those that can be joined are noted, one after the other.
pub open spec fn all_noted(
    list: Seq<OptionView>,
    games: Seq<AnnouncementView>,
    addr: Seq<char>,
    now: u64,
) -> Seq<OptionView>
    decreases games.len(),
{
    if games.len() == 0 {
        list
    } else {
        let before = all_noted(list, games.drop_last(), addr, now);
        if games.last().can_join {
            noted(before, games.last().game_name, addr, now)
        } else {
            before
        }
    }
}

/// The games of the list that were advertised within the last second.
pub open spec fn fresh(list: Seq<OptionView>, now: u64) -> Seq<OptionView>
    decreases list.len(),
{
    if list.len() == 0 {
        Seq::empty()
    } else {
        let rest = fresh(list.drop_last(), now);
        if elapsed(now, list.last().seen) > LISTING_LIFETIME_MS {
            rest
        } else {
            rest.push(list.last())
        }
    }
}

/// The list of games of a node that looks for one, and the entry that is marked.
#[derive(Clone, Debug)]
pub struct Browser {
    pub servers: Vec<GameOption>,
    pub selected: usize,
}

/// The mathematical value of a [`Browser`].
pub struct BrowserView {
    pub servers: Seq<OptionView>,
    pub selected: usize,
}

impl View for Browser {
    type V = BrowserView;

    open spec fn view(&self) -> BrowserView {
        BrowserView { servers: option_views(self.servers@), selected: self.selected }
    }
}

/// No two games of the list have the same name and the same master.
pub open spec fn options_distinct(list: Seq<OptionView>) -> bool {
    forall|i1: int, i2: int|
        0 <= i1 < list.len() && 0 <= i2 < list.len() && i1 != i2 ==> !((#[trigger] list[i1]).name
            == (#[trigger] list[i2]).name && list[i1].addr == list[i2].addr)
}

/// `option_index` finds a game with the name and the master if there is one.
pub proof fn lemma_option_index(list: Seq<OptionView>, name: Seq<char>, addr: Seq<char>)
    ensures
        match option_index(list, name, addr) {
            Some(i) => 0 <= i < list.len() && list[i].name == name && list[i].addr == addr,
            None => forall|k: int|
                0 <= k < list.len() ==> !((#[trigger] list[k]).name == name && list[k].addr == addr),
        },
    decreases list.len(),
{
    if list.len() > 0 {
        let init = list.drop_last();
        lemma_option_index(init, name, addr);
        match option_index(init, name, addr) {
            Some(i) => {
                assert(init[i] == list[i]);
            },
            None => {
                assert forall|k: int| 0 <= k < list.len() - 1 implies !((#[trigger] list[k]).name
                    == name && list[k].addr == addr) by {
                    assert(init[k] == list[k]);
                }
            },
        }
    }
}

/// A game that is noted leaves the games of the list distinct.
pub proof fn lemma_noted(list: Seq<OptionView>, name: Seq<char>, addr: Seq<char>, now: u64)
    requires
        options_distinct(list),
    ensures
        options_distinct(noted(list, name, addr, now)),
{
    lemma_option_index(list, name, addr);
    let out = noted(list, name, addr, now);
    assert forall|i1: int, i2: int|
        0 <= i1 < out.len() && 0 <= i2 < out.len() && i1 != i2 implies !((#[trigger] out[i1]).name
        == (#[trigger] out[i2]).name && out[i1].addr == out[i2].addr) by {
        if i1 < list.len() {
            assert(out[i1].name == list[i1].name && out[i1].addr == list[i1].addr);
        }
        if i2 < list.len() {
            assert(out[i2].name == list[i2].name && out[i2].addr == list[i2].addr);
        }
    }
}

/// The games that a master advertises leave the games of the list distinct.
pub proof fn lemma_all_noted(
    list: Seq<OptionView>,
    games: Seq<AnnouncementView>,
    addr: Seq<char>,
    now: u64,
)
    requires
        options_distinct(list),
    ensures
        options_distinct(all_noted(list, games, addr, now)),
    decreases games.len(),
{
    if games.len() > 0 {
        lemma_all_noted(list, games.drop_last(), addr, now);
        lemma_noted(all_noted(list, games.drop_last(), addr, now), games.last().game_name, addr, now);
    }
}

/// The fresh games of a list are games of the list, and distinct if those were.
pub proof fn lemma_fresh(list: Seq<OptionView>, now: u64)
    ensures
        forall|k: int| 0 <= k < fresh(list, now).len() ==> list.contains(#[trigger] fresh(list, now)[k]),
        options_distinct(list) ==> options_distinct(fresh(list, now)),
    decreases list.len(),
{
    if list.len() > 0 {
        let init = list.drop_last();
        let last = list.last();
        lemma_fresh(init, now);
        let rest = fresh(init, now);
        let out = fresh(list, now);
        assert(list[list.len() - 1] == last);
        assert forall|k: int| 0 <= k < out.len() implies list.contains(#[trigger] out[k]) by {
            if k < rest.len() {
                assert(out[k] == rest[k]);
                let j = choose|j: int| 0 <= j < init.len() && init[j] == rest[k];
                assert(list[j] == out[k]);
            }
        }
        if options_distinct(list) {
            assert(options_distinct(init)) by {
                assert forall|i1: int, i2: int|
                    0 <= i1 < init.len() && 0 <= i2 < init.len() && i1 != i2 implies !((
                #[trigger] init[i1]).name == (#[trigger] init[i2]).name && init[i1].addr
                    == init[i2].addr) by {
                    assert(init[i1] == list[i1] && init[i2] == list[i2]);
                }
            }
            assert forall|i1: int, i2: int|
                0 <= i1 < out.len() && 0 <= i2 < out.len() && i1 != i2 implies !((
            #[trigger] out[i1]).name == (#[trigger] out[i2]).name && out[i1].addr
                == out[i2].addr) by {
                if i1 < rest.len() && i2 < rest.len() {
                    assert(out[i1] == rest[i1] && out[i2] == rest[i2]);
                } else {
                    let low = if i1 < rest.len() { i1 } else { i2 };
                    assert(out[low] == rest[low]);
                    let j = choose|j: int| 0 <= j < init.len() && init[j] == rest[low];
                    assert(list[j] == rest[low]);
                    assert(!(list[j].name == list[list.len() - 1].name && list[j].addr
                        == list[list.len() - 1].addr));
                }
            }
        }
    }
}

impl BrowserView {
    /// The list is a map from games: no two entries have the same name and
    /// the same master.
    pub open spec fn wf(self) -> bool {
        options_distinct(self.servers)
    }

    /// The browser after the message `m` has come in from `from`: an
    /// advertisement is noted, everything else is passed over.
    pub open spec fn received(self, m: MessageView, from: Seq<char>, now: u64) -> BrowserView {
        match m.payload {
            PayloadView::Announcement { games } => BrowserView {
                servers: all_noted(self.servers, games, from, now),
                ..self
            },
            _ => self,
        }
    }

    /// The browser without the games that have not been advertised for
    /// more than a second; the mark stays on the list.
    pub open spec fn evicted(self, now: u64) -> BrowserView {
        BrowserView {
            servers: fresh(self.servers, now),
            selected: clamped(self.selected, fresh(self.servers, now).len()),
        }
    }

    /// The game that is marked, if the list is not empty.
    pub open spec fn choice(self) -> Option<OptionView> {
        if self.servers.len() == 0 {
            None
        } else {
            Some(self.servers[clamped(self.selected, self.servers.len()) as int])
        }
    }
}

impl Browser {
    /// A browser that has seen no game yet.
    pub fn new() -> (b: Browser)
        ensures
            b@ == (BrowserView { servers: Seq::empty(), selected: 0 }),
            b@.wf(),
    {
        let b = Browser { servers: Vec::new(), selected: 0 };
        proof {
            assert(b@.servers =~= Seq::empty());
        }
        b
    }

    /// Notes that the master at `addr` has advertised the game `name` at
    /// the time `now`.
    pub fn note(&mut self, name: &String, addr: &String, now: u64)
        ensures
            final(self)@ == (BrowserView {
                servers: noted(old(self)@.servers, name@, addr@, now),
                ..old(self)@
            }),
            old(self)@.wf() ==> final(self)@.wf(),
    {
        proof {
            if self@.wf() {
                lemma_noted(self@.servers, name@, addr@, now);
            }
        }
        let ghost all = self@.servers;
        let mut i: usize = 0;
        while i < self.servers.len()
            invariant
                i <= self.servers.len(),
                self@ == old(self)@,
                all == self@.servers,
                option_index(all.subrange(0, i as int), name@, addr@) is None,
            decreases self.servers.len() - i,
        {
            proof {
                assert(all.subrange(0, i + 1).drop_last() =~= all.subrange(0, i as int));
                assert(all.subrange(0, i + 1).last() == self.servers[i as int]@);
            }
            if same_text(&self.servers[i].name, name) && same_text(&self.servers[i].addr, addr) {
                proof {
                    assert(option_index(all.subrange(0, i + 1), name@, addr@) == Some(i as int));
                    lemma_option_index_prefix(all, i + 1, name@, addr@);
                }
                self.servers[i].seen = now;
                proof {
                    assert(self@.servers =~= noted(all, name@, addr@, now));
                }
                return ;
            }
            i += 1;
        }
        proof {
            assert(all.subrange(0, i as int) =~= all);
        }
        self.servers.push(GameOption { name: copy_text(name), addr: copy_text(addr), seen: now });
        proof {
            assert(self@.servers =~= noted(all, name@, addr@, now));
        }
    }

    /// Takes a message that came in from `from` at the time `now`.
    pub fn on_message(&mut self, msg: &GameMessage, from: &String, now: u64)
        ensures
            final(self)@ == old(self)@.received(msg@, from@, now),
            old(self)@.wf() ==> final(self)@.wf(),
    {
        proof {
            if self@.wf() {
                match msg@.payload {
                    PayloadView::Announcement { games } => {
                        lemma_all_noted(self@.servers, games, from@, now);
                    },
                    _ => {},
                }
            }
        }
        match &msg.payload {
            Payload::Announcement { games } => {
                let ghost list = self@.servers;
                let ghost all = announcement_views(games@);
                let mut k: usize = 0;
                while k < games.len()
                    invariant
                        k <= games.len(),
                        all == announcement_views(games@),
                        self@.selected == old(self)@.selected,
                        list == old(self)@.servers,
                        self@.servers == all_noted(list, all.subrange(0, k as int), from@, now),
                    decreases games.len() - k,
                {
                    proof {
                        assert(all.subrange(0, k + 1).drop_last() =~= all.subrange(0, k as int));
                        assert(all.subrange(0, k + 1).last() == games[k as int]@);
                    }
                    if games[k].can_join {
                        self.note(&games[k].game_name, from, now);
                    }
                    k += 1;
                }
                proof {
                    assert(all.subrange(0, k as int) =~= all);
                }
            },
            _ => {},
        }
    }

    /// Takes a datagram that came in from `from` at the time `now`. Bytes
    /// that are no message are passed over.
    pub fn on_datagram(&mut self, bytes: &Vec<u8>, from: &String, now: u64)
        ensures
            match crate::format::parse(bytes@) {
                None => final(self)@ == old(self)@,
                Some(m) => final(self)@ == old(self)@.received(m, from@, now),
            },
            old(self)@.wf() ==> final(self)@.wf(),
    {
        match crate::codec::decode(bytes) {
            None => {},
            Some(msg) => {
                self.on_message(&msg, from, now);
            },
        }
    }

    /// Drops the games that have not been advertised for more than a second.
    pub fn evict(&mut self, now: u64)
        ensures
            final(self)@ == old(self)@.evicted(now),
            old(self)@.wf() ==> final(self)@.wf(),
    {
        proof {
            lemma_fresh(self@.servers, now);
        }
        let ghost all = self@.servers;
        let mut kept: Vec<GameOption> = Vec::new();
        let mut i: usize = 0;
        proof {
            assert(option_views(kept@) =~= fresh(all.subrange(0, 0), now));
        }
        while i < self.servers.len()
            invariant
                i <= self.servers.len(),
                self@ == old(self)@,
                all == self@.servers,
                option_views(kept@) == fresh(all.subrange(0, i as int), now),
            decreases self.servers.len() - i,
        {
            let ghost before = option_views(kept@);
            proof {
                assert(all.subrange(0, i + 1).drop_last() =~= all.subrange(0, i as int));
                assert(all.subrange(0, i + 1).last() == self.servers[i as int]@);
            }
            if !(elapsed_ms(now, self.servers[i].seen) > LISTING_LIFETIME_MS) {
                let g = GameOption {
                    name: copy_text(&self.servers[i].name),
                    addr: copy_text(&self.servers[i].addr),
                    seen: self.servers[i].seen,
                };
                kept.push(g);
                proof {
                    assert(option_views(kept@) =~= before.push(self.servers[i as int]@));
                }
            }
            i += 1;
        }
        proof {
            assert(all.subrange(0, i as int) =~= all);
        }
        self.servers = kept;
        self.selected = clamp_selected(self.selected, self.servers.len());
    }

    /// Marks the next game of the list; behind the last comes the first.
    pub fn select_next(&mut self)
        ensures
            final(self)@ == (BrowserView {
                selected: next_on_ring(old(self)@.selected, old(self)@.servers.len()),
                ..old(self)@
            }),
    {
        self.selected = ring_next(self.selected, self.servers.len());
    }

    /// Marks the game before the marked one; before the first comes the last.
    pub fn select_prev(&mut self)
        ensures
            final(self)@ == (BrowserView {
                selected: prev_on_ring(old(self)@.selected, old(self)@.servers.len()),
                ..old(self)@
            }),
    {
        self.selected = ring_prev(self.selected, self.servers.len());
    }

    /// The game that is marked, if the list is not empty.
    pub fn chosen(&self) -> (r: Option<GameOption>)
        ensures
            match self@.choice() {
                Some(g) => r is Some && r->0@ == g,
                None => r is None,
            },
    {
        let len: usize = self.servers.len();
        if len == 0 {
            None
        } else {
            let at: usize = clamp_selected(self.selected, len);
            let g = &self.servers[at];
            Some(GameOption { name: copy_text(&g.name), addr: copy_text(&g.addr), seen: g.seen })
        }
    }
}

} // verus!
