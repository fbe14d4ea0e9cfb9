use vstd::prelude::*;

use crate::message::{ClientData, Outgoing, ServerMessage};

verus! {

/// Failure of a roster operation that looked for a member by id.
#[derive(Debug, Clone, Copy, PartialEq, Eq)]
pub enum ClientError {
    NotFound,
}

/// True when no two records of `s` share an id.
pub open spec fn unique_ids(s: Seq<ClientData>) -> bool {
    forall|i: int, j: int| 0 <= i < j < s.len() ==> s[i].id != s[j].id
}

/// True when some record of `s` has the id `id`.
pub open spec fn has_id(s: Seq<ClientData>, id: u32) -> bool {
    exists|i: int| 0 <= i < s.len() && s[i].id == id
}

/// The index of the record with the id `id`, where there is one.
pub open spec fn position(s: Seq<ClientData>, id: u32) -> int {
    choose|i: int| 0 <= i < s.len() && s[i].id == id
}

/// The roster after the record with the id `id` is taken out: the last
/// record moves into its place.
pub open spec fn without(s: Seq<ClientData>, id: u32) -> Seq<ClientData> {
    s.update(position(s, id), s.last()).drop_last()
}

/// The ids of the records of `s`, in order, leaving out the id `exclude`.
pub open spec fn recipients(s: Seq<ClientData>, exclude: u32) -> Seq<u32>
    decreases s.len(),
{
    if s.len() == 0 {
        Seq::empty()
    } else {
        let rest = recipients(s.drop_last(), exclude);
        if s.last().id == exclude {
            rest
        } else {
            rest.push(s.last().id)
        }
    }
}

/// Broadcasting to a roster with distinct ids never reaches the excluded id,
/// reaches every other member, reaches each of them once, and reaches no one
/// outside the roster.
pub proof fn lemma_broadcast_recipients(s: Seq<ClientData>, exclude: u32)
    requires
        unique_ids(s),
    ensures
        !recipients(s, exclude).contains(exclude),
        forall|i: int| 0 <= i < s.len() && s[i].id != exclude ==> recipients(s, exclude).contains(#[trigger] s[i].id),
        recipients(s, exclude).no_duplicates(),
        forall|k: int| 0 <= k < recipients(s, exclude).len() ==> has_id(s, #[trigger] recipients(s, exclude)[k]),
    decreases s.len(),
{
    if s.len() > 0 {
        let p = s.drop_last();
        let n = s.len() - 1;
        assert forall|i: int, j: int| 0 <= i < j < p.len() implies p[i].id != p[j].id by {
            assert(p[i] == s[i] && p[j] == s[j]);
        }
        lemma_broadcast_recipients(p, exclude);
        let r = recipients(p, exclude);
        assert forall|k: int| 0 <= k < r.len() implies has_id(s, #[trigger] r[k]) by {
            assert(has_id(p, r[k]));
            let w = choose|w: int| 0 <= w < p.len() && p[w].id == r[k];
            assert(s[w] == p[w]);
        }
        assert forall|i: int| 0 <= i < n && s[i].id != exclude implies r.contains(#[trigger] s[i].id) by {
            assert(s[i] == p[i]);
        }
        if s.last().id != exclude {
            let last = s.last().id;
            assert(!r.contains(last)) by {
                if r.contains(last) {
                    let k = choose|k: int| 0 <= k < r.len() && r[k] == last;
                    assert(has_id(p, r[k]));
                    let w = choose|w: int| 0 <= w < p.len() && p[w].id == r[k];
                    assert(s[w].id == s[n].id);
                }
            }
            let q = r.push(last);
            assert(q.len() == r.len() + 1 && q[r.len() as int] == last);
            assert forall|k: int| 0 <= k < r.len() implies q[k] == r[k] by {}
            assert(q.contains(last));
            assert forall|i: int| 0 <= i < s.len() && s[i].id != exclude implies q.contains(#[trigger] s[i].id) by {
                if i < n {
                    let k = choose|k: int| 0 <= k < r.len() && r[k] == s[i].id;
                    assert(q[k] == s[i].id);
                }
            }
            assert forall|k: int| 0 <= k < q.len() implies has_id(s, #[trigger] q[k]) by {
                if k < r.len() {
                    assert(has_id(s, r[k]));
                } else {
                    assert(s[n].id == q[k]);
                }
            }
            assert(!q.contains(exclude));
            assert forall|a: int, b: int| 0 <= a < q.len() && 0 <= b < q.len() && a != b implies q[a] != q[b] by {
                if a < r.len() && b < r.len() {
                } else if a < r.len() {
                    assert(r.contains(q[a]));
                } else if b < r.len() {
                    assert(r.contains(q[b]));
                }
            }
        }
    }
}

/// Taking the member `id` out of a roster with distinct ids shortens it by
/// one, leaves no record with that id, keeps the ids distinct, and keeps
/// every other record: as a multiset, exactly that member's record is gone.
pub proof fn lemma_without(s: Seq<ClientData>, id: u32)
    requires
        unique_ids(s),
        has_id(s, id),
    ensures
        without(s, id).len() == s.len() - 1,
        !has_id(without(s, id), id),
        unique_ids(without(s, id)),
        without(s, id).to_multiset() == s.to_multiset().remove(s[position(s, id)]),
{
    broadcast use vstd::multiset::group_multiset_axioms;
    let p = position(s, id);
    let n = s.len() - 1;
    let u = s.update(p, s.last());
    let t = without(s, id);
    assert(0 <= p < s.len() && s[p].id == id);
    assert forall|j: int| 0 <= j < t.len() implies #[trigger] t[j] == (if j == p { s[n] } else { s[j] }) by {}
    assert(!has_id(t, id)) by {
        if has_id(t, id) {
            let j = choose|j: int| 0 <= j < t.len() && t[j].id == id;
            if j == p {
                assert(s[n].id == s[p].id);
            } else if j < p {
                assert(s[j].id != s[p].id);
            } else {
                assert(s[p].id != s[j].id);
            }
        }
    }
    assert forall|i: int, j: int| 0 <= i < j < t.len() implies t[i].id != t[j].id by {
        if i == p {
            assert(s[j].id != s[n].id);
        } else if j == p {
            assert(s[i].id != s[n].id);
        } else {
            assert(s[i].id != s[j].id);
        }
    }
    vstd::seq_lib::to_multiset_update(s, p, s.last());
    assert(u.last() == s.last());
    assert(t.push(u.last()) =~= u);
    vstd::seq_lib::to_multiset_build(t, u.last());
    vstd::seq_lib::to_multiset_contains(s, s[p]);
    assert(s.to_multiset().count(s[p]) > 0);
    let a = s.to_multiset();
    let l = s.last();
    assert forall|x: ClientData| #[trigger] t.to_multiset().count(x) == a.remove(s[p]).count(x) by {
        assert(t.to_multiset().insert(l).count(x) == a.insert(l).remove(s[p]).count(x));
    }
    assert(t.to_multiset() =~= a.remove(s[p]));
}

/// The ordered members of one room.
#[derive(Debug)]
pub struct ClientList {
    clients: Vec<ClientData>,
}

impl View for ClientList {
    type V = Seq<ClientData>;

    closed spec fn view(&self) -> Seq<ClientData> {
        self.clients@
    }
}

impl ClientList {
    /// Members are told apart by their ids.
    pub open spec fn wf(&self) -> bool {
        unique_ids(self@)
    }

    /// An empty roster.
    pub fn new() -> (r: ClientList)
        ensures
            r@ == Seq::<ClientData>::empty(),
            r.wf(),
    {
        ClientList { clients: Vec::new() }
    }

    /// Number of members.
    pub fn len(&self) -> (r: usize)
        ensures
            r == self@.len(),
    {
        self.clients.len()
    }

    /// Read access to the members, in order.
    pub fn get(&self) -> (r: &Vec<ClientData>)
        ensures
            r@ == self@,
    {
        &self.clients
    }

    /// A copy of the members as they stand now.
    pub fn snapshot(&self) -> (r: Vec<ClientData>)
        ensures
            r@ == self@,
    {
        let mut r: Vec<ClientData> = Vec::new();
        let mut i: usize = 0;
        while i < self.clients.len()
            invariant
                i <= self@.len(),
                r@ == self@.subrange(0, i as int),
            decreases self@.len() - i,
        {
            r.push(self.clients[i].duplicate());
            i = i + 1;
            assert(r@ =~= self@.subrange(0, i as int));
        }
        assert(self@.subrange(0, self@.len() as int) =~= self@);
        r
    }

    /// The index of the member with the id `id`.
    pub fn get_index(&self, id: u32) -> (r: Result<usize, ClientError>)
        requires
            self.wf(),
        ensures
            r is Ok <==> has_id(self@, id),
            r is Err ==> r == Err::<usize, ClientError>(ClientError::NotFound),
            r matches Ok(i) ==> i == position(self@, id) && self@[i as int].id == id,
    {
        let mut i: usize = 0;
        while i < self.clients.len()
            invariant
                i <= self@.len(),
                self.wf(),
                forall|k: int| 0 <= k < i ==> self@[k].id != id,
            decreases self@.len() - i,
        {
            if self.clients[i].id == id {
                proof {
                    let p = position(self@, id);
                    assert(has_id(self@, id));
                    assert(0 <= p < self@.len() && self@[p].id == id);
                    if p < i as int {
                        assert(self@[p].id != self@[i as int].id);
                    } else if p > i as int {
                        assert(self@[i as int].id != self@[p].id);
                    }
                }
                return Ok(i);
            }
            i = i + 1;
        }
        Err(ClientError::NotFound)
    }

    /// Adds a member at the end.
    pub fn push(&mut self, client: ClientData)
        requires
            old(self).wf(),
            !has_id(old(self)@, client.id),
        ensures
            final(self)@ == old(self)@.push(client),
            final(self).wf(),
    {
        self.clients.push(client);
    }

    /// Removes the member with the id `id`; the last member takes its place.
    pub fn remove(&mut self, id: u32) -> (r: Result<(), ClientError>)
        requires
            old(self).wf(),
        ensures
            final(self).wf(),
            r is Ok <==> has_id(old(self)@, id),
            r is Ok ==> final(self)@ == without(old(self)@, id),
            r is Ok ==> final(self)@.len() == old(self)@.len() - 1,
            r is Ok ==> !has_id(final(self)@, id),
            r is Ok ==> final(self)@.to_multiset()
                == old(self)@.to_multiset().remove(old(self)@[position(old(self)@, id)]),
            r is Err ==> r == Err::<(), ClientError>(ClientError::NotFound) && *final(self) == *old(self),
    {
        let index = self.get_index(id)?;
        let ghost s = self@;
        proof {
            lemma_without(s, id);
        }
        self.clients.swap_remove(index);
        assert(unique_ids(self@)) by {
            assert forall|i: int, j: int| 0 <= i < j < self@.len() implies self@[i].id != self@[j].id by {
                let n = s.len() - 1;
                if i == index as int {
                    assert(self@[i] == s[n]);
                    assert(self@[j] == s[j]);
                } else if j == index as int {
                    assert(self@[j] == s[n]);
                    assert(self@[i] == s[i]);
                } else {
                    assert(self@[i] == s[i]);
                    assert(self@[j] == s[j]);
                }
            }
        }
        Ok(())
    }

    /// Gives the member with the id `id` a new instrument name.
    pub fn set_instrument_name(&mut self, id: u32, instrument_name: String) -> (r: Result<(), ClientError>)
        requires
            old(self).wf(),
        ensures
            final(self).wf(),
            r is Ok <==> has_id(old(self)@, id),
            r is Ok ==> final(self)@ == old(self)@.update(
                position(old(self)@, id),
                ClientData { instrument_name, ..old(self)@[position(old(self)@, id)] },
            ),
            r is Err ==> r == Err::<(), ClientError>(ClientError::NotFound) && *final(self) == *old(self),
    {
        let index = self.get_index(id)?;
        let ghost s = self@;
        self.clients[index].instrument_name = instrument_name;
        assert(unique_ids(self@)) by {
            assert forall|i: int, j: int| 0 <= i < j < self@.len() implies self@[i].id != self@[j].id by {
                assert(self@[i].id == s[i].id);
                assert(self@[j].id == s[j].id);
            }
        }
        Ok(())
    }

    /// The message together with the ids of every member but `self_id`, in
    /// roster order.
    pub fn send_to_all(&self, message: ServerMessage, self_id: u32) -> (r: Outgoing)
        ensures
            r.message == message,
            r.recipients@ == recipients(self@, self_id),
    {
        let mut ids: Vec<u32> = Vec::new();
        let mut i: usize = 0;
        while i < self.clients.len()
            invariant
                i <= self@.len(),
                ids@ == recipients(self@.subrange(0, i as int), self_id),
            decreases self@.len() - i,
        {
            let id = self.clients[i].id;
            assert(self@.subrange(0, i + 1).drop_last() =~= self@.subrange(0, i as int));
            if id != self_id {
                ids.push(id);
            }
            i = i + 1;
        }
        assert(self@.subrange(0, self@.len() as int) =~= self@);
        Outgoing { message, recipients: ids }
    }
}

} // verus!
