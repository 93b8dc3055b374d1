//! Snippets and the table that holds one snippet for each selector name.

use vstd::prelude::*;

verus! {

/// `str`'s `==` holds exactly when the two strings hold the same characters.
pub assume_specification[ <str as PartialEq>::eq ](a: &str, b: &str) -> (r: bool)
    ensures
        r == (a@ == b@),
;

/// What a [`Snippet`] holds, as sequences of characters.
pub struct SnippetView {
    pub prefix: Seq<char>,
    pub body: Seq<Seq<char>>,
    pub description: Seq<char>,
}

/// The snippet of a rule: the selector name is its prefix and the one line of
/// its body, the declaration its description.
pub open spec fn snippet_for(name: Seq<char>, declaration: Seq<char>) -> SnippetView {
    SnippetView { prefix: name, body: seq![name], description: declaration }
}

/// A completion record for one class selector.
#[derive(Clone, Debug, PartialEq, Eq)]
pub struct Snippet {
    pub prefix: String,
    pub body: Vec<String>,
    pub description: String,
}

impl View for Snippet {
    type V = SnippetView;

    open spec fn view(&self) -> SnippetView {
        SnippetView {
            prefix: self.prefix@,
            body: Seq::new(self.body@.len(), |i: int| self.body@[i]@),
            description: self.description@,
        }
    }
}

impl Snippet {
    /// The snippet of the rule with selector `name` and declaration `description`.
    pub fn new(name: String, description: String) -> (r: Snippet)
        ensures
            r@ == snippet_for(name@, description@),
            r.prefix == name,
            r.description == description,
    {
        let mut body: Vec<String> = Vec::new();
        body.push(name.clone());
        let r = Snippet { prefix: name, body, description };
        assert(r@.body =~= seq![name@]);
        r
    }
}

/// A mapping from selector names to snippets. Each snippet is kept under its
/// prefix, and no name is held twice.
#[derive(Clone, Debug, PartialEq, Eq)]
pub struct SnippetTable {
    entries: Vec<Snippet>,
}

impl View for SnippetTable {
    type V = Map<Seq<char>, SnippetView>;

    closed spec fn view(&self) -> Map<Seq<char>, SnippetView> {
        Map::new(
            |k: Seq<char>| exists|i: int| 0 <= i < self.entries@.len() && self.entries@[i].prefix@ == k,
            |k: Seq<char>| self.entries@[self.slot(k)]@,
        )
    }
}

impl SnippetTable {
    /// An index at which `name` is held, where it is held at all.
    closed spec fn slot(&self, name: Seq<char>) -> int {
        choose|i: int| 0 <= i < self.entries@.len() && self.entries@[i].prefix@ == name
    }

    /// No selector name is held twice.
    closed spec fn distinct(&self) -> bool {
        forall|i: int, j: int|
            0 <= i < j < self.entries@.len() ==> self.entries@[i].prefix@ != self.entries@[j].prefix@
    }

    /// The table's invariant: no selector name is held twice, so that the
    /// table holds as many snippets as the mapping has names.
    pub closed spec fn wf(&self) -> bool {
        &&& self.distinct()
        &&& self@.dom().finite()
        &&& self@.dom().len() == self.entries@.len()
    }

    /// With the invariant, the snippet at index `i` is the one that the table
    /// maps its prefix to.
    proof fn lemma_slot(&self, i: int)
        requires
            self.distinct(),
            0 <= i < self.entries@.len(),
        ensures
            self@.contains_key(self.entries@[i].prefix@),
            self@[self.entries@[i].prefix@] == self.entries@[i]@,
    {
        let k = self.entries@[i].prefix@;
        let j = self.slot(k);
        assert(0 <= j < self.entries@.len() && self.entries@[j].prefix@ == k);
        if j < i {
            assert(self.entries@[j].prefix@ != self.entries@[i].prefix@);
        } else if i < j {
            assert(self.entries@[i].prefix@ != self.entries@[j].prefix@);
        }
    }

    /// The empty table.
    pub fn new() -> (r: SnippetTable)
        ensures
            r.wf(),
            r@ == Map::<Seq<char>, SnippetView>::empty(),
    {
        let r = SnippetTable { entries: Vec::new() };
        assert(r@ =~= Map::<Seq<char>, SnippetView>::empty());
        r
    }

    /// The number of selector names in the table.
    pub fn len(&self) -> (r: usize)
        requires
            self.wf(),
        ensures
            self@.dom().finite(),
            r == self@.dom().len(),
    {
        self.entries.len()
    }

    /// Whether the table holds no snippet.
    pub fn is_empty(&self) -> (r: bool)
        requires
            self.wf(),
        ensures
            r == (self@ == Map::<Seq<char>, SnippetView>::empty()),
    {
        proof {
            if self.entries@.len() == 0 {
                assert(self@ =~= Map::<Seq<char>, SnippetView>::empty());
            } else {
                self.lemma_slot(0);
            }
        }
        self.entries.len() == 0
    }

    /// The snippets of the table, each name once, in no particular order.
    pub fn entries(&self) -> (r: &Vec<Snippet>)
        requires
            self.wf(),
        ensures
            self@.dom().finite(),
            r@.len() == self@.dom().len(),
            forall|i: int|
                0 <= i < r@.len() ==> self@.contains_key(#[trigger] r@[i].prefix@)
                    && self@[r@[i].prefix@] == r@[i]@,
            forall|i: int, j: int| 0 <= i < j < r@.len() ==> r@[i].prefix@ != r@[j].prefix@,
    {
        proof {
            assert forall|i: int| 0 <= i < self.entries@.len() implies self@.contains_key(
                #[trigger] self.entries@[i].prefix@,
            ) && self@[self.entries@[i].prefix@] == self.entries@[i]@ by {
                self.lemma_slot(i);
            }
        }
        &self.entries
    }

    /// Index of the snippet held under `name`, if there is one.
    fn position(&self, name: &str) -> (r: Option<usize>)
        requires
            self.wf(),
        ensures
            match r {
                Some(i) => i < self.entries@.len() && self.entries@[i as int].prefix@ == name@,
                None => !self@.contains_key(name@),
            },
    {
        let n = self.entries.len();
        let mut i: usize = 0;
        while i < n
            invariant
                n == self.entries@.len(),
                i <= n,
                forall|j: int| 0 <= j < i ==> self.entries@[j].prefix@ != name@,
            decreases n - i,
        {
            if *self.entries[i].prefix.as_str() == *name {
                return Some(i);
            }
            i += 1;
        }
        None
    }

    /// Whether a snippet is held under `name`.
    pub fn contains_key(&self, name: &str) -> (r: bool)
        requires
            self.wf(),
        ensures
            r == self@.contains_key(name@),
    {
        match self.position(name) {
            Some(i) => {
                proof {
                    self.lemma_slot(i as int);
                }
                true
            },
            None => false,
        }
    }

    /// The snippet held under `name`, if there is one.
    pub fn get(&self, name: &str) -> (r: Option<&Snippet>)
        requires
            self.wf(),
        ensures
            match r {
                Some(snippet) => self@.contains_key(name@) && self@[name@] == snippet@,
                None => !self@.contains_key(name@),
            },
    {
        match self.position(name) {
            Some(i) => {
                proof {
                    self.lemma_slot(i as int);
                }
                Some(&self.entries[i])
            },
            None => None,
        }
    }

    /// Puts `snippet` under its prefix, in place of the snippet held under
    /// that name before, if there was one.
    pub fn insert(&mut self, snippet: Snippet)
        requires
            old(self).wf(),
        ensures
            final(self).wf(),
            final(self)@ == old(self)@.insert(snippet.prefix@, snippet@),
    {
        let ghost before = *self;
        let ghost key = snippet.prefix@;
        let ghost value = snippet@;
        let ghost mut at: int = 0;
        match self.position(snippet.prefix.as_str()) {
            Some(i) => {
                self.entries[i] = snippet;
                proof {
                    at = i as int;
                }
            },
            None => {
                proof {
                    at = self.entries@.len() as int;
                }
                self.entries.push(snippet);
            },
        }
        proof {
            let after = *self;
            assert(after.distinct());
            if at < before.entries@.len() {
                before.lemma_slot(at);
            }
            assert(0 <= at < after.entries@.len() && after.entries@[at].prefix@ == key);
            assert(forall|j: int|
                0 <= j < before.entries@.len() && j != at ==> after.entries@[j]
                    == before.entries@[j]);
            assert(after.entries@.len() == before.entries@.len() || (at == before.entries@.len()
                && after.entries@.len() == at + 1));
            assert forall|k: Seq<char>| after@.contains_key(k) <==> (k == key || before@.contains_key(
                k,
            )) by {
                if after@.contains_key(k) {
                    let j = after.slot(k);
                    if k != key {
                        assert(before.entries@[j].prefix@ == k);
                    }
                }
                if before@.contains_key(k) {
                    let j = before.slot(k);
                    assert(after.entries@[j].prefix@ == k || k == key);
                }
            }
            assert forall|k: Seq<char>| after@.contains_key(k) implies after@[k] == (if k == key {
                value
            } else {
                before@[k]
            }) by {
                let j = after.slot(k);
                after.lemma_slot(j);
                if k != key {
                    before.lemma_slot(j);
                }
            }
            assert(after@ =~= before@.insert(key, value));
            assert(after@.dom() =~= before@.dom().insert(key));
        }
    }
}

} // verus!
