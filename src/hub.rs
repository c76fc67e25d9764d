//! The rooms of live connections and the fan-out of messages to them.

use vstd::prelude::*;
use vstd::string::StringExecFns;

verus! {

/// A connection, as the hub knows it: a number that the transport maps to its socket.
pub type Handle = u64;

/// One room: its identifier and its members, each once.
pub struct Room {
    pub id: String,
    pub members: Vec<Handle>,
}

/// A message bound for one member.
pub struct Delivery {
    pub to: Handle,
    pub text: String,
}

impl View for Delivery {
    type V = (Handle, Seq<char>);

    open spec fn view(&self) -> (Handle, Seq<char>) {
        (self.to, self.text@)
    }
}

/// The map from room identifier to members.
pub struct ChatServer {
    rooms: Vec<Room>,
}

/// Room identifiers and members as a map, the later entry winning.
pub open spec fn rooms_view(rs: Seq<Room>) -> Map<Seq<char>, Seq<Handle>>
    decreases rs.len(),
{
    if rs.len() == 0 {
        Map::empty()
    } else {
        rooms_view(rs.drop_last()).insert(rs.last().id@, rs.last().members@)
    }
}

pub open spec fn unique_ids(rs: Seq<Room>) -> bool {
    forall|i: int, j: int| 0 <= i < j < rs.len() ==> rs[i].id@ != rs[j].id@
}

/// The members of `room`; none when it was never joined.
pub open spec fn members_of(rooms: Map<Seq<char>, Seq<Handle>>, room: Seq<char>) -> Seq<Handle> {
    if rooms.contains_key(room) {
        rooms[room]
    } else {
        Seq::empty()
    }
}

/// The rooms after `h` joins `room`.
pub open spec fn joined(rooms: Map<Seq<char>, Seq<Handle>>, room: Seq<char>, h: Handle) -> Map<
    Seq<char>,
    Seq<Handle>,
> {
    let m = members_of(rooms, room);
    rooms.insert(room, if m.contains(h) { m } else { m.push(h) })
}

/// Holds of every handle but `h`.
pub open spec fn other_than(h: Handle) -> spec_fn(Handle) -> bool {
    |x: Handle| x != h
}

/// The rooms after `h` leaves `room`.
pub open spec fn left(rooms: Map<Seq<char>, Seq<Handle>>, room: Seq<char>, h: Handle) -> Map<
    Seq<char>,
    Seq<Handle>,
> {
    if rooms.contains_key(room) {
        rooms.insert(room, rooms[room].filter(other_than(h)))
    } else {
        rooms
    }
}

/// What a broadcast of `text` to the members `m` hands out.
pub open spec fn deliveries(m: Seq<Handle>, text: Seq<char>) -> Seq<(Handle, Seq<char>)> {
    m.map_values(|h: Handle| (h, text))
}

pub open spec fn delivery_views(ds: Seq<Delivery>) -> Seq<(Handle, Seq<char>)> {
    ds.map_values(|d: Delivery| d@)
}

proof fn lemma_view_index(rs: Seq<Room>, i: int)
    requires
        unique_ids(rs),
        0 <= i < rs.len(),
    ensures
        rooms_view(rs).contains_key(rs[i].id@),
        rooms_view(rs)[rs[i].id@] == rs[i].members@,
    decreases rs.len(),
{
    if i < rs.len() - 1 {
        let p = rs.drop_last();
        assert(p[i] == rs[i]);
        assert(unique_ids(p));
        lemma_view_index(p, i);
    }
}

proof fn lemma_view_absent(rs: Seq<Room>, k: Seq<char>)
    requires
        forall|i: int| 0 <= i < rs.len() ==> rs[i].id@ != k,
    ensures
        !rooms_view(rs).contains_key(k),
    decreases rs.len(),
{
    if rs.len() > 0 {
        let p = rs.drop_last();
        assert forall|i: int| 0 <= i < p.len() implies p[i].id@ != k by {
            assert(p[i] == rs[i]);
        }
        lemma_view_absent(p, k);
    }
}

/// Replacing the members of room `i` replaces them in the map.
proof fn lemma_view_update(rs: Seq<Room>, i: int, r: Room)
    requires
        unique_ids(rs),
        0 <= i < rs.len(),
        r.id@ == rs[i].id@,
    ensures
        unique_ids(rs.update(i, r)),
        rooms_view(rs.update(i, r)) == rooms_view(rs).insert(r.id@, r.members@),
{
    let ns = rs.update(i, r);
    assert(unique_ids(ns)) by {
        assert forall|a: int, b: int| 0 <= a < b < ns.len() implies ns[a].id@ != ns[b].id@ by {
            assert(ns[a].id@ == rs[a].id@);
            assert(ns[b].id@ == rs[b].id@);
        }
    }
    let nv = rooms_view(ns);
    let ov = rooms_view(rs).insert(r.id@, r.members@);
    assert forall|k: Seq<char>| #[trigger] nv.contains_key(k) == ov.contains_key(k) && (nv.contains_key(k) ==> nv[k] == ov[k]) by {
        if k == r.id@ {
            lemma_view_index(ns, i);
        } else if exists|j: int| 0 <= j < rs.len() && rs[j].id@ == k {
            let j = choose|j: int| 0 <= j < rs.len() && rs[j].id@ == k;
            lemma_view_index(rs, j);
            assert(ns[j] == rs[j]);
            lemma_view_index(ns, j);
        } else {
            lemma_view_absent(rs, k);
            assert forall|j: int| 0 <= j < ns.len() implies ns[j].id@ != k by {
                if j != i {
                    assert(ns[j] == rs[j]);
                }
            }
            lemma_view_absent(ns, k);
        }
    }
    assert(nv =~= ov);
}

impl View for ChatServer {
    type V = Map<Seq<char>, Seq<Handle>>;

    closed spec fn view(&self) -> Map<Seq<char>, Seq<Handle>> {
        rooms_view(self.rooms@)
    }
}

impl ChatServer {
    /// Room identifiers are distinct and no room lists a member twice.
    pub closed spec fn wf(&self) -> bool {
        &&& unique_ids(self.rooms@)
        &&& forall|i: int| 0 <= i < self.rooms@.len() ==> (#[trigger] self.rooms@[i]).members@.no_duplicates()
    }

    /// A hub without rooms.
    pub fn new() -> (r: ChatServer)
        ensures
            r.wf(),
            r@ == Map::<Seq<char>, Seq<Handle>>::empty(),
    {
        ChatServer { rooms: Vec::new() }
    }

    /// Index of the room named `room_id`.
    fn find(&self, room_id: &String) -> (r: Option<usize>)
        requires
            self.wf(),
        ensures
            match r {
                Some(i) => i < self.rooms@.len() && self.rooms@[i as int].id@ == room_id@,
                None => !self@.contains_key(room_id@),
            },
    {
        let mut i: usize = 0;
        while i < self.rooms.len()
            invariant
                i <= self.rooms@.len(),
                forall|j: int| 0 <= j < i ==> self.rooms@[j].id@ != room_id@,
            decreases self.rooms@.len() - i,
        {
            if self.rooms[i].id == *room_id {
                return Some(i);
            }
            i = i + 1;
        }
        proof {
            lemma_view_absent(self.rooms@, room_id@);
        }
        None
    }

    /// Adds `handle` to the room `room_id`, creating the room when it is new.
    pub fn add_client(&mut self, room_id: &str, handle: Handle)
        requires
            old(self).wf(),
        ensures
            final(self).wf(),
            final(self)@ == joined(old(self)@, room_id@, handle),
    {
        let key = String::from_str(room_id);
        match self.find(&key) {
            Some(i) => {
                proof {
                    lemma_view_index(self.rooms@, i as int);
                }
                let mut present = false;
                let mut j: usize = 0;
                while j < self.rooms[i].members.len()
                    invariant
                        i < self.rooms@.len(),
                        j <= self.rooms@[i as int].members@.len(),
                        present == (exists|w: int| 0 <= w < j && #[trigger] self.rooms@[i as int].members@[w] == handle),
                    decreases self.rooms@[i as int].members@.len() - j,
                {
                    if self.rooms[i].members[j] == handle {
                        present = true;
                    }
                    j = j + 1;
                }
                if !present {
                    let ghost old_rooms = self.rooms@;
                    let mut members: Vec<Handle> = Vec::new();
                    std::mem::swap(&mut members, &mut self.rooms[i].members);
                    members.push(handle);
                    let id = self.rooms[i].id.clone();
                    let ghost r = Room { id, members };
                    self.rooms.set(i, Room { id, members });
                    proof {
                        lemma_view_update(old_rooms, i as int, r);
                        assert(self.rooms@ == old_rooms.update(i as int, r));
                        assert forall|k: int| 0 <= k < self.rooms@.len() implies (#[trigger] self.rooms@[k]).members@.no_duplicates() by {
                            if k != i {
                                assert(self.rooms@[k] == old_rooms[k]);
                            } else {
                                assert(old_rooms[k].members@.no_duplicates());
                            }
                        }
                    }
                }
            },
            None => {
                let ghost old_rooms = self.rooms@;
                let mut members: Vec<Handle> = Vec::new();
                members.push(handle);
                self.rooms.push(Room { id: key, members });
                proof {
                    assert(self.rooms@.drop_last() =~= old_rooms);
                    assert(members_of(rooms_view(old_rooms), room_id@) == Seq::<Handle>::empty());
                    assert(seq![handle] =~= Seq::<Handle>::empty().push(handle));
                    assert forall|a: int, b: int| 0 <= a < b < self.rooms@.len() implies self.rooms@[a].id@ != self.rooms@[b].id@ by {
                        if b == self.rooms@.len() - 1 {
                            assert(self.rooms@[a] == old_rooms[a]);
                            lemma_view_index(old_rooms, a);
                        } else {
                            assert(self.rooms@[a] == old_rooms[a]);
                            assert(self.rooms@[b] == old_rooms[b]);
                        }
                    }
                    assert forall|k: int| 0 <= k < self.rooms@.len() implies (#[trigger] self.rooms@[k]).members@.no_duplicates() by {
                        if k < old_rooms.len() {
                            assert(self.rooms@[k] == old_rooms[k]);
                        }
                    }
                }
            },
        }
    }

    /// Removes `handle` from the room `room_id`; nothing changes when either is absent.
    pub fn remove_client(&mut self, room_id: &str, handle: Handle)
        requires
            old(self).wf(),
        ensures
            final(self).wf(),
            final(self)@ == left(old(self)@, room_id@, handle),
    {
        let key = String::from_str(room_id);
        match self.find(&key) {
            Some(i) => {
                proof {
                    lemma_view_index(self.rooms@, i as int);
                }
                let ghost old_rooms = self.rooms@;
                let ghost m = self.rooms@[i as int].members@;
                let ghost p = other_than(handle);
                assert(m.no_duplicates());
                let mut kept: Vec<Handle> = Vec::new();
                let mut j: usize = 0;
                while j < self.rooms[i].members.len()
                    invariant
                        self.rooms@ == old_rooms,
                        i < old_rooms.len(),
                        m == old_rooms[i as int].members@,
                        m.no_duplicates(),
                        p == other_than(handle),
                        j <= m.len(),
                        kept@ == m.subrange(0, j as int).filter(p),
                        kept@.no_duplicates(),
                    decreases m.len() - j,
                {
                    let x = self.rooms[i].members[j];
                    proof {
                        reveal(Seq::filter);
                        assert(m.subrange(0, j + 1).drop_last() =~= m.subrange(0, j as int));
                    }
                    if x != handle {
                        proof {
                            assert forall|k: int| 0 <= k < kept@.len() implies kept@[k] != x by {
                                assert(kept@[k] == m.subrange(0, j as int).filter(p)[k]);
                                assert(m.subrange(0, j as int).filter(p).contains(kept@[k]));
                                m.subrange(0, j as int).lemma_filter_contains_rev(p, kept@[k]);
                                let w = choose|w: int| 0 <= w < j && #[trigger] m.subrange(0, j as int)[w] == kept@[k];
                                assert(m[w] == kept@[k]);
                            }
                        }
                        kept.push(x);
                    }
                    j = j + 1;
                }
                assert(m.subrange(0, j as int) =~= m);
                let id = self.rooms[i].id.clone();
                let ghost r = Room { id, members: kept };
                self.rooms.set(i, Room { id, members: kept });
                proof {
                    lemma_view_update(old_rooms, i as int, r);
                    assert(self.rooms@ == old_rooms.update(i as int, r));
                    assert(r.id@ == room_id@);
                    assert(old(self)@ == rooms_view(old_rooms));
                    assert(self@ == rooms_view(old_rooms).insert(room_id@, r.members@));
                    assert forall|k: int| 0 <= k < self.rooms@.len() implies (#[trigger] self.rooms@[k]).members@.no_duplicates() by {
                        if k != i {
                            assert(self.rooms@[k] == old_rooms[k]);
                        }
                    }
                }
            },
            None => {},
        }
    }

    /// The deliveries of `message` to every current member of the room `room_id`.
    pub fn broadcast(&self, room_id: &str, message: &str) -> (r: Vec<Delivery>)
        requires
            self.wf(),
        ensures
            delivery_views(r@) == deliveries(members_of(self@, room_id@), message@),
    {
        let key = String::from_str(room_id);
        let mut out: Vec<Delivery> = Vec::new();
        match self.find(&key) {
            Some(i) => {
                proof {
                    lemma_view_index(self.rooms@, i as int);
                }
                let ghost m = self.rooms@[i as int].members@;
                let mut j: usize = 0;
                while j < self.rooms[i].members.len()
                    invariant
                        i < self.rooms@.len(),
                        m == self.rooms@[i as int].members@,
                        j <= m.len(),
                        out@.len() == j,
                        forall|k: int| 0 <= k < j ==> (#[trigger] out@[k])@ == (m[k], message@),
                    decreases m.len() - j,
                {
                    out.push(Delivery { to: self.rooms[i].members[j], text: String::from_str(message) });
                    j = j + 1;
                }
                assert(delivery_views(out@) =~= deliveries(m, message@));
            },
            None => {
                assert(delivery_views(out@) =~= deliveries(Seq::empty(), message@));
            },
        }
        out
    }
}

} // verus!
