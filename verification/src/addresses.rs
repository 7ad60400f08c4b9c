//! The addresses of a peer.
use crate::identity::Multiaddr;
use vstd::prelude::*;

verus! {

/// The addresses that are known of a peer, in the order in which they were learned.
#[derive(Debug)]
pub struct Addresses {
    addrs: Vec<Multiaddr>,
}

impl View for Addresses {
    type V = Seq<Seq<u8>>;

    closed spec fn view(&self) -> Seq<Seq<u8>> {
        self.addrs.deep_view()
    }
}

impl Clone for Addresses {
    fn clone(&self) -> (r: Self)
        ensures
            r@ == self@,
    {
        let addrs = self.addrs.clone();
        assert(addrs.deep_view() =~= self.addrs.deep_view());
        Addresses { addrs }
    }
}

/// The addresses `s` with `a` learned as well.
pub open spec fn with_address(s: Seq<Seq<u8>>, a: Seq<u8>) -> Seq<Seq<u8>> {
    if s.contains(a) {
        s
    } else {
        s.push(a)
    }
}

impl Addresses {
    /// Creates a list that holds one address.
    pub fn new(addr: Multiaddr) -> (r: Self)
        ensures
            r@ == seq![addr@],
    {
        let mut addrs: Vec<Multiaddr> = Vec::new();
        addrs.push(addr);
        assert(addrs.deep_view() =~= seq![addr@]);
        Addresses { addrs }
    }

    /// Whether the address is in the list.
    fn contains(&self, addr: &Multiaddr) -> (r: bool)
        ensures
            r == self@.contains(addr@),
    {
        let ghost s = self.addrs.deep_view();
        let mut i: usize = 0;
        while i < self.addrs.len()
            invariant
                i <= self.addrs.len(),
                s == self.addrs.deep_view(),
                forall|j: int| 0 <= j < i ==> s[j] != addr@,
            decreases self.addrs.len() - i,
        {
            if self.addrs[i] == *addr {
                assert(s[i as int] == addr@);
                return true;
            }
            i = i + 1;
        }
        false
    }

    /// Adds a new address to the end of the list.
    ///
    /// Returns true if the address was added, and false if the list held it already.
    pub fn insert(&mut self, addr: Multiaddr) -> (r: bool)
        ensures
            final(self)@ == with_address(old(self)@, addr@),
            r == !old(self)@.contains(addr@),
    {
        if self.contains(&addr) {
            false
        } else {
            self.addrs.push(addr);
            assert(self.addrs.deep_view() =~= old(self).addrs.deep_view().push(addr@));
            true
        }
    }

    /// The addresses as a vector.
    pub closed spec fn vec_spec(self) -> Vec<Multiaddr> {
        self.addrs
    }

    /// The addresses as a vector.
    pub fn into_vec(self) -> (r: Vec<Multiaddr>)
        ensures
            r == self.vec_spec(),
            r.deep_view() == self@,
    {
        self.addrs
    }
}

/// An address that was learned is known, none is forgotten or listed twice, and no other is added.
pub proof fn lemma_address_learned(s: Seq<Seq<u8>>, a: Seq<u8>, x: Seq<u8>)
    ensures
        with_address(s, a).contains(x) <==> s.contains(x) || x == a,
        s.no_duplicates() ==> with_address(s, a).no_duplicates(),
        s.contains(a) ==> with_address(s, a) == s,
        forall|i: int| 0 <= i < s.len() ==> with_address(s, a)[i] == s[i],
{
    let t = with_address(s, a);
    if s.contains(x) {
        let i = choose|i: int| 0 <= i < s.len() && s[i] == x;
        assert(t[i] == x);
    }
    if x == a && !s.contains(a) {
        assert(t[s.len() as int] == a);
    }
    if t.contains(x) {
        let i = choose|i: int| 0 <= i < t.len() && t[i] == x;
        if i < s.len() {
            assert(s[i] == x);
        }
    }
}

} // verus!
