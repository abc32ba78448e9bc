//! A cache of shared strings.
use std::rc::Rc;
use vstd::prelude::*;

verus! {

/// A cached string.
///
/// This holds a reference to the underlying shared string, and can be
/// cloned cheaply.
#[derive(Debug)]
pub struct CachedString {
    string: Rc<String>,
}

impl View for CachedString {
    type V = Seq<char>;

    closed spec fn view(&self) -> Seq<char> {
        (*self.string)@
    }
}

impl CachedString {
    fn create(string: String) -> (c: CachedString)
        ensures
            c@ == string@,
    {
        CachedString { string: Rc::new(string) }
    }

    /// Another handle on the same string.
    pub fn share(&self) -> (c: CachedString)
        ensures
            c@ == self@,
    {
        CachedString { string: Rc::clone(&self.string) }
    }

    /// The string's text.
    pub fn as_str(&self) -> (s: &str)
        ensures
            s@ == self@,
    {
        self.string.as_str()
    }
}

/// Cache to reduce duplicated strings in memory.
pub struct StringCache {
    cache: Vec<CachedString>,
}

impl StringCache {
    /// The cached strings, each once, in order of first request.
    pub closed spec fn contents(&self) -> Seq<Seq<char>> {
        self.cache@.map_values(|c: CachedString| c@)
    }

    /// Each string is cached once.
    pub closed spec fn wf(&self) -> bool {
        self.contents().no_duplicates()
    }

    /// An empty cache.
    pub fn new() -> (c: StringCache)
        ensures
            c.wf(),
            c.contents() == Seq::<Seq<char>>::empty(),
    {
        let c = StringCache { cache: Vec::new() };
        assert(c.contents() =~= Seq::<Seq<char>>::empty());
        c
    }

    /// A shared handle on `string`, cached on first request.
    pub fn cache(&mut self, string: &str) -> (c: CachedString)
        requires
            old(self).wf(),
        ensures
            final(self).wf(),
            c@ == string@,
            old(self).contents().contains(string@) ==> final(self).contents() == old(
                self,
            ).contents(),
            !old(self).contents().contains(string@) ==> final(self).contents() == old(
                self,
            ).contents().push(string@),
    {
        let n = self.cache.len();
        let mut i: usize = 0;
        while i < n
            invariant
                n == self.cache@.len(),
                i <= n,
                self.wf(),
                self.contents() == old(self).contents(),
                forall|k: int| 0 <= k < i ==> self.contents()[k] != string@,
            decreases n - i,
        {
            if self.cache[i].as_str().to_owned() == string.to_owned() {
                assert(self.contents()[i as int] == string@);
                return self.cache[i].share();
            }
            i += 1;
        }
        let ghost before = self.contents();
        let cached = CachedString::create(string.to_owned());
        let handle = cached.share();
        self.cache.push(cached);
        assert(self.contents() =~= before.push(string@));
        handle
    }
}

} // verus!
