use crate::byte_buf::{bytes_clone, bytes_view};
use crate::text::str_equal;
use bytes::Bytes;
use vstd::prelude::*;

verus! {

/// The contents that a list of rows stands for: each key with the value of
/// its row, a later row winning over an earlier one.
pub open spec fn rows_map(rows: Seq<(String, Bytes)>) -> Map<Seq<char>, Seq<u8>>
    decreases rows.len(),
{
    if rows.len() == 0 {
        Map::empty()
    } else {
        rows_map(rows.drop_last()).insert(rows.last().0@, bytes_view(rows.last().1))
    }
}

/// Whether no key occurs in two rows.
pub open spec fn distinct_keys(rows: Seq<(String, Bytes)>) -> bool {
    forall|i: int, j: int| 0 <= i < j < rows.len() ==> rows[i].0@ != rows[j].0@
}

/// The keys of the rows are exactly the keys of their contents, and each
/// row's value is the one its key maps to.
pub proof fn lemma_rows_map(rows: Seq<(String, Bytes)>)
    requires
        distinct_keys(rows),
    ensures
        forall|k: Seq<char>| #[trigger] rows_map(rows).contains_key(k) <==> exists|i: int|
            0 <= i < rows.len() && rows[i].0@ == k,
        forall|i: int| 0 <= i < rows.len() ==> #[trigger] rows_map(rows)[rows[i].0@] == bytes_view(rows[i].1),
        rows_map(rows).dom().finite(),
        rows_map(rows).dom().len() == rows.len(),
    decreases rows.len(),
{
    if rows.len() > 0 {
        let init = rows.drop_last();
        assert(distinct_keys(init));
        lemma_rows_map(init);
        let last = rows.last();
        assert(!rows_map(init).contains_key(last.0@)) by {
            if rows_map(init).contains_key(last.0@) {
                let i = choose|i: int| 0 <= i < init.len() && init[i].0@ == last.0@;
                assert(rows[i].0@ == rows[rows.len() - 1].0@);
            }
        }
        assert forall|k: Seq<char>| #[trigger] rows_map(rows).contains_key(k) <==> exists|i: int|
            0 <= i < rows.len() && rows[i].0@ == k by {
            if rows_map(rows).contains_key(k) && k != last.0@ {
                let i = choose|i: int| 0 <= i < init.len() && init[i].0@ == k;
                assert(rows[i].0@ == k);
            }
            if exists|i: int| 0 <= i < rows.len() && rows[i].0@ == k {
                let i = choose|i: int| 0 <= i < rows.len() && rows[i].0@ == k;
                if i < rows.len() - 1 {
                    assert(init[i].0@ == k);
                }
            }
        }
        assert forall|i: int| 0 <= i < rows.len() implies #[trigger] rows_map(rows)[rows[i].0@] == bytes_view(rows[i].1) by {
            if i < rows.len() - 1 {
                assert(init[i] == rows[i]);
                assert(rows[i].0@ != last.0@);
            }
        }
    }
}

/// Replacing the value of a row keeps the keys distinct and changes only
/// what that row's key maps to.
pub proof fn lemma_rows_map_update(rows: Seq<(String, Bytes)>, i: int, key: String, value: Bytes)
    requires
        distinct_keys(rows),
        0 <= i < rows.len(),
        rows[i].0@ == key@,
    ensures
        distinct_keys(rows.update(i, (key, value))),
        rows_map(rows.update(i, (key, value))) == rows_map(rows).insert(key@, bytes_view(value)),
    decreases rows.len(),
{
    let new_rows = rows.update(i, (key, value));
    assert(distinct_keys(new_rows)) by {
        assert forall|a: int, b: int| 0 <= a < b < new_rows.len() implies new_rows[a].0@ != new_rows[b].0@ by {
            assert(new_rows[a].0@ == rows[a].0@);
            assert(new_rows[b].0@ == rows[b].0@);
        }
    }
    if i == rows.len() - 1 {
        assert(new_rows.drop_last() =~= rows.drop_last());
        lemma_rows_map(rows.drop_last());
        assert(distinct_keys(rows.drop_last()));
        assert(rows_map(new_rows) =~= rows_map(rows).insert(key@, bytes_view(value)));
    } else {
        assert(distinct_keys(rows.drop_last()));
        lemma_rows_map_update(rows.drop_last(), i, key, value);
        assert(new_rows.drop_last() =~= rows.drop_last().update(i, (key, value)));
        assert(rows.last().0@ != key@) by {
            assert(rows[i].0@ != rows[rows.len() - 1].0@);
        }
        assert(rows_map(new_rows) =~= rows_map(rows).insert(key@, bytes_view(value)));
    }
}

/// The in-memory key-value store: each key maps to one value.
#[derive(Debug)]
pub struct Database {
    rows: Vec<(String, Bytes)>,
}

impl View for Database {
    type V = Map<Seq<char>, Seq<u8>>;

    closed spec fn view(&self) -> Map<Seq<char>, Seq<u8>> {
        rows_map(self.rows@)
    }
}

impl Database {
    #[verifier::type_invariant]
    spec fn keys_are_distinct(&self) -> bool {
        distinct_keys(self.rows@)
    }

    /// An empty store.
    pub fn new() -> (db: Database)
        ensures
            db@ == Map::<Seq<char>, Seq<u8>>::empty(),
    {
        Database { rows: Vec::new() }
    }

    /// The number of keys in the store.
    pub fn len(&self) -> (n: usize)
        ensures
            n == self@.dom().len(),
            self@.dom().finite(),
    {
        proof {
            use_type_invariant(self);
            lemma_rows_map(self.rows@);
        }
        self.rows.len()
    }

    /// The row that holds `key`, if any.
    #[verifier::loop_isolation(false)]
    fn find(&self, key: &str) -> (r: Option<usize>)
        ensures
            match r {
                Some(i) => i < self.rows@.len() && self.rows@[i as int].0@ == key@,
                None => forall|i: int| 0 <= i < self.rows@.len() ==> self.rows@[i].0@ != key@,
            },
    {
        let mut i: usize = 0;
        while i < self.rows.len()
            invariant
                i <= self.rows@.len(),
                forall|j: int| 0 <= j < i ==> self.rows@[j].0@ != key@,
            decreases self.rows@.len() - i,
        {
            if str_equal(self.rows[i].0.as_str(), key) {
                return Some(i);
            }
            i = i + 1;
        }
        None
    }

    /// The value stored under `key`, if any.
    pub fn get(&self, key: &str) -> (r: Option<Bytes>)
        ensures
            match r {
                Some(b) => self@.contains_key(key@) && bytes_view(b) == self@[key@],
                None => !self@.contains_key(key@),
            },
    {
        proof {
            use_type_invariant(self);
            lemma_rows_map(self.rows@);
        }
        match self.find(key) {
            Some(i) => Some(bytes_clone(&self.rows[i].1)),
            None => None,
        }
    }

    /// Stores `value` under `key`, replacing any value stored there before.
    pub fn set(&mut self, key: String, value: Bytes)
        ensures
            final(self)@ == old(self)@.insert(key@, bytes_view(value)),
    {
        proof {
            use_type_invariant(&*self);
        }
        let found = self.find(key.as_str());
        let mut rows: Vec<(String, Bytes)> = Vec::new();
        std::mem::swap(&mut rows, &mut self.rows);
        let ghost old_rows = rows@;
        match found {
            Some(i) => {
                proof {
                    lemma_rows_map_update(rows@, i as int, key, value);
                }
                rows.set(i, (key, value));
            },
            None => {
                rows.push((key, value));
                proof {
                    assert(rows@.drop_last() =~= old_rows);
                    assert(distinct_keys(rows@));
                }
            },
        }
        self.rows = rows;
    }
}

} // verus!
