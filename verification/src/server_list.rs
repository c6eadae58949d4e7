//! The list of rooms that the menu shows.

use vstd::prelude::*;

verus! {

/// The names of the rooms, each once.
#[derive(Clone, Debug)]
pub struct ServerList {
    servers: Vec<String>,
}

/// A change to the list of rooms.
#[derive(Clone, Debug)]
pub enum ServerListEvent {
    /// The list is replaced by another.
    SetAll(ServerList),
    /// A room was opened.
    Add(String),
    /// A room was closed.
    Remove(String),
}

/// The names in `servers`, as a set.
pub open spec fn names_of(servers: Seq<String>) -> Set<Seq<char>> {
    Set::new(|name: Seq<char>| exists|i: int| 0 <= i < servers.len() && (#[trigger] servers[i])@ == name)
}

/// No name occurs twice in `servers`.
pub open spec fn distinct_names(servers: Seq<String>) -> bool {
    forall|i: int, j: int|
        0 <= i < j < servers.len() ==> (#[trigger] servers[i])@ != (#[trigger] servers[j])@
}

impl View for ServerList {
    type V = Set<Seq<char>>;

    closed spec fn view(&self) -> Set<Seq<char>> {
        names_of(self.servers@)
    }
}

impl ServerList {
    pub closed spec fn wf(&self) -> bool {
        distinct_names(self.servers@)
    }

    /// The number of rooms on the list.
    pub closed spec fn count(&self) -> nat {
        self.servers@.len()
    }

    /// The names of the rooms in the order in which they stand on the list:
    /// a room that is added goes to the end.
    pub closed spec fn names(&self) -> Seq<Seq<char>> {
        Seq::new(self.servers@.len(), |i: int| self.servers@[i]@)
    }

    /// The names on a well-formed list are those of its rooms, each once.
    pub proof fn lemma_names(&self)
        requires
            self.wf(),
        ensures
            self.names().len() == self.count(),
            self.names().no_duplicates(),
            self.names().to_set() == self@,
    {
        let names = self.names();
        assert forall|i: int, j: int| 0 <= i < names.len() && 0 <= j < names.len() && i != j implies names[i]
            != names[j] by {
            if i < j {
                assert(self.servers@[i]@ != self.servers@[j]@);
            } else {
                assert(self.servers@[j]@ != self.servers@[i]@);
            }
        }
        assert forall|name: Seq<char>| names.to_set().contains(name) <==> self@.contains(name) by {
            if names.contains(name) {
                let i = choose|i: int| 0 <= i < names.len() && names[i] == name;
                assert(self.servers@[i]@ == name);
            }
            if self@.contains(name) {
                let i = choose|i: int|
                    0 <= i < self.servers@.len() && (#[trigger] self.servers@[i])@ == name;
                assert(names[i] == name);
            }
        }
        assert(names.to_set() =~= self@);
    }

    /// An empty list.
    pub fn new() -> (list: ServerList)
        ensures
            list.wf(),
            list@ == Set::<Seq<char>>::empty(),
            list.count() == 0,
            list.names() == Seq::<Seq<char>>::empty(),
    {
        let list = ServerList { servers: Vec::new() };
        assert(list@ =~= Set::<Seq<char>>::empty());
        assert(list.names() =~= Seq::<Seq<char>>::empty());
        list
    }

    /// The place of `server` on the list, if it is there.
    fn position(&self, server: &String) -> (place: Option<usize>)
        ensures
            match place {
                Some(i) => i < self.servers@.len() && self.servers@[i as int]@ == server@,
                None => forall|i: int|
                    0 <= i < self.servers@.len() ==> (#[trigger] self.servers@[i])@ != server@,
            },
    {
        let mut i: usize = 0;
        while i < self.servers.len()
            invariant
                i <= self.servers@.len(),
                forall|j: int| 0 <= j < i ==> (#[trigger] self.servers@[j])@ != server@,
            decreases self.servers.len() - i,
        {
            if self.servers[i] == *server {
                return Some(i);
            }
            i = i + 1;
        }
        None
    }

    /// Whether a room of this name is on the list.
    pub fn contains(&self, server: &String) -> (found: bool)
        ensures
            found == self@.contains(server@),
    {
        let place = self.position(server);
        proof {
            if place is Some {
                assert(self.servers@[place->0 as int]@ == server@);
            }
        }
        place.is_some()
    }

    /// The number of rooms on the list.
    pub fn len(&self) -> (count: usize)
        ensures
            count == self.count(),
    {
        self.servers.len()
    }

    /// The name of the room at place `i` of the list.
    pub fn get(&self, i: usize) -> (name: &String)
        requires
            i < self.count(),
        ensures
            name@ == self.names()[i as int],
            self@.contains(name@),
    {
        assert(self.servers@[i as int]@ == self.servers@[i as int]@);
        &self.servers[i]
    }

    /// Takes up a change: the list is replaced, or gains a room, or loses
    /// one. A room that is added twice is on the list once; a room that is
    /// not on the list is removed without effect.
    pub fn apply(&mut self, event: ServerListEvent)
        requires
            old(self).wf(),
            event matches ServerListEvent::SetAll(list) ==> list.wf(),
        ensures
            final(self).wf(),
            final(self)@ == (match event {
                ServerListEvent::SetAll(list) => list@,
                ServerListEvent::Add(server) => old(self)@.insert(server@),
                ServerListEvent::Remove(server) => old(self)@.remove(server@),
            }),
            match event {
                ServerListEvent::SetAll(list) => final(self).names() == list.names(),
                ServerListEvent::Add(server) => final(self).names() == (if old(self)@.contains(
                    server@,
                ) {
                    old(self).names()
                } else {
                    old(self).names().push(server@)
                }),
                ServerListEvent::Remove(server) => if old(self)@.contains(server@) {
                    exists|i: int|
                        0 <= i < old(self).names().len() && old(self).names()[i] == server@
                            && final(self).names() == old(self).names().remove(i)
                } else {
                    final(self).names() == old(self).names()
                },
            },
    {
        match event {
            ServerListEvent::SetAll(list) => {
                self.servers = list.servers;
                assert(self.names() =~= list.names());
            },
            ServerListEvent::Add(server) => {
                let ghost name = server@;
                if self.position(&server).is_none() {
                    self.servers.push(server);
                    proof {
                        let before = old(self).servers@;
                        let after = self.servers@;
                        assert(self.names() =~= old(self).names().push(name));
                        assert forall|n: Seq<char>| names_of(after).contains(n) <==> names_of(
                            before,
                        ).insert(name).contains(n) by {
                            if names_of(after).contains(n) {
                                let i = choose|i: int|
                                    0 <= i < after.len() && (#[trigger] after[i])@ == n;
                                if i < before.len() {
                                    assert(before[i]@ == n);
                                }
                            }
                            if names_of(before).contains(n) {
                                let i = choose|i: int|
                                    0 <= i < before.len() && (#[trigger] before[i])@ == n;
                                assert(after[i]@ == n);
                            }
                            if n == name {
                                assert(after[before.len() as int]@ == n);
                            }
                        }
                        assert(names_of(after) =~= names_of(before).insert(name));
                    }
                } else {
                    proof {
                        let before = old(self).servers@;
                        assert(names_of(before).contains(name));
                        assert(names_of(before) =~= names_of(before).insert(name));
                    }
                }
            },
            ServerListEvent::Remove(server) => {
                let ghost name = server@;
                match self.position(&server) {
                    Some(i) => {
                        self.servers.remove(i);
                        proof {
                            let before = old(self).servers@;
                            let after = self.servers@;
                            assert(old(self).names()[i as int] == name);
                            assert(self.names() =~= old(self).names().remove(i as int));
                            assert forall|n: Seq<char>| names_of(after).contains(n) <==> names_of(
                                before,
                            ).remove(name).contains(n) by {
                                if names_of(after).contains(n) {
                                    let j = choose|j: int|
                                        0 <= j < after.len() && (#[trigger] after[j])@ == n;
                                    if j < i {
                                        assert(before[j]@ == n);
                                    } else {
                                        assert(before[j + 1]@ == n);
                                    }
                                }
                                if names_of(before).contains(n) && n != name {
                                    let j = choose|j: int|
                                        0 <= j < before.len() && (#[trigger] before[j])@ == n;
                                    if j < i {
                                        assert(after[j]@ == n);
                                    } else {
                                        assert(after[j - 1]@ == n);
                                    }
                                }
                            }
                            assert(names_of(after) =~= names_of(before).remove(name));
                            assert forall|a: int, b: int| 0 <= a < b < after.len() implies (
                            #[trigger] after[a])@ != (#[trigger] after[b])@ by {
                                let a0 = if a < i { a } else { a + 1 };
                                let b0 = if b < i { b } else { b + 1 };
                                assert(before[a0]@ != before[b0]@);
                            }
                        }
                    },
                    None => {
                        proof {
                            let before = old(self).servers@;
                            if names_of(before).contains(name) {
                                let j = choose|j: int|
                                    0 <= j < before.len() && (#[trigger] before[j])@ == name;
                                assert(before[j]@ != name);
                            }
                            assert(names_of(before) =~= names_of(before).remove(name));
                        }
                    },
                }
            },
        }
    }
}

} // verus!
