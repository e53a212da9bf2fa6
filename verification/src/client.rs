//! Per-connection transaction state: the MULTI queue and the watched keys.
use vstd::prelude::*;

use crate::text::{copy_text, texts_view, lemma_texts_push};

verus! {

pub struct ClientView {
    pub name: Seq<char>,
    pub addr: Seq<char>,
    pub in_multi: bool,
    pub queue: Seq<Seq<char>>,
    pub watched: Seq<(Seq<char>, u64)>,
}

pub open spec fn versions_view(s: Seq<(String, u64)>) -> Seq<(Seq<char>, u64)> {
    s.map_values(|p: (String, u64)| (p.0@, p.1))
}

pub struct ClientState {
    name: String,
    addr: String,
    in_multi: bool,
    queue: Vec<String>,
    watched: Vec<(String, u64)>,
}

impl View for ClientState {
    type V = ClientView;

    closed spec fn view(&self) -> ClientView {
        ClientView {
            name: self.name@,
            addr: self.addr@,
            in_multi: self.in_multi,
            queue: texts_view(self.queue@),
            watched: versions_view(self.watched@),
        }
    }
}

fn copy_versions(v: &Vec<(String, u64)>) -> (r: Vec<(String, u64)>)
    ensures
        versions_view(r@) == versions_view(v@),
{
    let mut r: Vec<(String, u64)> = Vec::new();
    let mut i: usize = 0;
    while i < v.len()
        invariant
            i <= v@.len(),
            r@.len() == i,
            versions_view(r@) == versions_view(v@).take(i as int),
        decreases v@.len() - i,
    {
        let ghost before = r@;
        r.push((copy_text(&v[i].0), v[i].1));
        assert(versions_view(r@) =~= versions_view(v@).take(i as int + 1));
        i = i + 1;
    }
    assert(versions_view(v@).take(v@.len() as int) =~= versions_view(v@));
    r
}

impl ClientState {
    pub fn new(name: String, addr: String) -> (c: ClientState)
        ensures
            c@.name == name@,
            c@.addr == addr@,
            !c@.in_multi,
            c@.queue == Seq::<Seq<char>>::empty(),
            c@.watched == Seq::<(Seq<char>, u64)>::empty(),
    {
        let c = ClientState { name, addr, in_multi: false, queue: Vec::new(), watched: Vec::new() };
        assert(c@.queue =~= Seq::<Seq<char>>::empty());
        assert(c@.watched =~= Seq::<(Seq<char>, u64)>::empty());
        c
    }

    /// Starts a transaction with an empty queue.
    pub fn multi(&mut self)
        ensures
            final(self)@ == (ClientView { in_multi: true, queue: Seq::empty(), ..old(self)@ }),
    {
        self.in_multi = true;
        self.queue = Vec::new();
        assert(self@.queue =~= Seq::<Seq<char>>::empty());
    }

    /// Whether a transaction is open.
    pub fn is_in_multi(&self) -> (r: bool)
        ensures
            r == self@.in_multi,
    {
        self.in_multi
    }

    /// Queues a command line for the open transaction.
    pub fn queue_command(&mut self, cmd: String)
        ensures
            final(self)@ == (ClientView { queue: old(self)@.queue.push(cmd@), ..old(self)@ }),
    {
        let ghost before = self.queue@;
        self.queue.push(cmd);
        proof {
            lemma_texts_push(before, cmd);
        }
    }

    /// Ends the transaction: returns the queued commands and forgets the queue and
    /// the watched keys.
    pub fn exec(&mut self) -> (r: Vec<String>)
        ensures
            texts_view(r@) == old(self)@.queue,
            final(self)@ == (ClientView {
                in_multi: false,
                queue: Seq::empty(),
                watched: Seq::empty(),
                ..old(self)@
            }),
    {
        let mut q: Vec<String> = Vec::new();
        std::mem::swap(&mut q, &mut self.queue);
        self.in_multi = false;
        self.watched = Vec::new();
        assert(self@.queue =~= Seq::<Seq<char>>::empty());
        assert(self@.watched =~= Seq::<(Seq<char>, u64)>::empty());
        q
    }

    /// Abandons the transaction and the watched keys.
    pub fn discard(&mut self)
        ensures
            final(self)@ == (ClientView {
                in_multi: false,
                queue: Seq::empty(),
                watched: Seq::empty(),
                ..old(self)@
            }),
    {
        self.in_multi = false;
        self.queue = Vec::new();
        self.watched = Vec::new();
        assert(self@.queue =~= Seq::<Seq<char>>::empty());
        assert(self@.watched =~= Seq::<(Seq<char>, u64)>::empty());
    }

    /// Watches keys at the given versions (added to those already watched).
    pub fn watch(&mut self, _keys: Vec<String>, versions: Vec<(String, u64)>)
        ensures
            final(self)@ == (ClientView { watched: old(self)@.watched + versions_view(versions@), ..old(self)@ }),
    {
        let mut i: usize = 0;
        let ghost w0 = self@.watched;
        while i < versions.len()
            invariant
                i <= versions@.len(),
                self@ == (ClientView { watched: w0 + versions_view(versions@).take(i as int), ..old(self)@ }),
                w0 == old(self)@.watched,
            decreases versions@.len() - i,
        {
            let ghost before = self.watched@;
            let p = (copy_text(&versions[i].0), versions[i].1);
            let ghost pv = (p.0@, p.1);
            assert(pv == versions_view(versions@)[i as int]);
            self.watched.push(p);
            assert(versions_view(self.watched@) =~= versions_view(before).push(pv));
            assert(versions_view(self.watched@) =~= w0 + versions_view(versions@).take(i as int + 1));
            i = i + 1;
        }
        assert(versions_view(versions@).take(versions@.len() as int) =~= versions_view(versions@));
    }

    /// Forgets the watched keys.
    pub fn unwatch(&mut self)
        ensures
            final(self)@ == (ClientView { watched: Seq::empty(), ..old(self)@ }),
    {
        self.watched = Vec::new();
        assert(self@.watched =~= Seq::<(Seq<char>, u64)>::empty());
    }

    /// Whether any key is watched.
    pub fn has_watched_keys(&self) -> (r: bool)
        ensures
            r == (self@.watched.len() > 0),
    {
        self.watched.len() > 0
    }

    /// The watched keys with the versions they were watched at.
    pub fn watched_keys_versions(&self) -> (r: Vec<(String, u64)>)
        ensures
            versions_view(r@) == self@.watched,
    {
        copy_versions(&self.watched)
    }
}

} // verus!
