use std::sync::Arc;

use mini_lsm_core::block::Block;
use mini_lsm_core::block_iterator::BlockIterator;
use mini_lsm_core::merge_iterator::MergeIterator;
use mini_lsm_core::storage_iterator::StorageIterator;

/// A source over a list of entries whose `next` fails on a chosen call.
struct ListIter {
    entries: Vec<(Vec<u8>, Vec<u8>)>,
    pos: usize,
    calls: usize,
    fail_on_call: Option<usize>,
}

impl ListIter {
    fn new(entries: &[(&str, &str)], fail_on_call: Option<usize>) -> Self {
        ListIter {
            entries: entries
                .iter()
                .map(|(k, v)| (k.as_bytes().to_vec(), v.as_bytes().to_vec()))
                .collect(),
            pos: 0,
            calls: 0,
            fail_on_call,
        }
    }
}

impl StorageIterator for ListIter {
    fn key(&self) -> &[u8] {
        if self.pos < self.entries.len() {
            &self.entries[self.pos].0
        } else {
            &[]
        }
    }

    fn value(&self) -> &[u8] {
        if self.pos < self.entries.len() {
            &self.entries[self.pos].1
        } else {
            &[]
        }
    }

    fn is_valid(&self) -> bool {
        self.pos < self.entries.len()
    }

    fn next(&mut self) -> anyhow::Result<()> {
        self.calls += 1;
        if Some(self.calls) == self.fail_on_call {
            return Err(anyhow::Error::msg("source failed"));
        }
        if self.pos < self.entries.len() {
            self.pos += 1;
        }
        Ok(())
    }
}

fn drain<I: StorageIterator>(iter: &mut I) -> Vec<(String, String)> {
    let mut out = Vec::new();
    while iter.is_valid() {
        out.push((
            String::from_utf8(iter.key().to_vec()).unwrap(),
            String::from_utf8(iter.value().to_vec()).unwrap(),
        ));
        iter.next().unwrap();
    }
    out
}

fn pairs(items: &[(&str, &str)]) -> Vec<(String, String)> {
    items.iter().map(|(k, v)| (k.to_string(), v.to_string())).collect()
}

#[test]
fn merge_orders_and_prefers_lower_index() {
    let a = ListIter::new(&[("a", "1"), ("b", "2")], None);
    let b = ListIter::new(&[("b", "99"), ("c", "3")], None);
    let mut merge = MergeIterator::create(vec![Box::new(a), Box::new(b)]);
    assert_eq!(drain(&mut merge), pairs(&[("a", "1"), ("b", "2"), ("c", "3")]));
    assert!(!merge.is_valid());
    assert!(merge.key().is_empty());
    assert!(merge.value().is_empty());
}

#[test]
fn merge_of_exhausted_sources_is_invalid() {
    let a = ListIter::new(&[], None);
    let b = ListIter::new(&[], None);
    let mut merge = MergeIterator::create(vec![Box::new(a), Box::new(b)]);
    assert!(!merge.is_valid());
    assert!(merge.key().is_empty());
    assert!(merge.value().is_empty());
    merge.next().unwrap();
    assert!(!merge.is_valid());
}

#[test]
fn merge_of_no_sources_is_invalid() {
    let merge: MergeIterator<ListIter> = MergeIterator::create(Vec::new());
    assert!(!merge.is_valid());
}

#[test]
fn merge_skips_empty_sources() {
    let a = ListIter::new(&[], None);
    let b = ListIter::new(&[("k", "v")], None);
    let c = ListIter::new(&[], None);
    let mut merge = MergeIterator::create(vec![Box::new(a), Box::new(b), Box::new(c)]);
    assert_eq!(drain(&mut merge), pairs(&[("k", "v")]));
}

#[test]
fn three_way_tie_takes_lowest_index() {
    let a = ListIter::new(&[("x", "from0")], None);
    let b = ListIter::new(&[("x", "from1")], None);
    let c = ListIter::new(&[("x", "from2")], None);
    let mut merge = MergeIterator::create(vec![Box::new(c), Box::new(b), Box::new(a)]);
    assert_eq!(drain(&mut merge), pairs(&[("x", "from2")]));
}

#[test]
fn three_way_tie_with_surrounding_keys() {
    let a = ListIter::new(&[("m", "a"), ("x", "a")], None);
    let b = ListIter::new(&[("x", "b"), ("z", "b")], None);
    let c = ListIter::new(&[("a", "c"), ("x", "c")], None);
    let mut merge = MergeIterator::create(vec![Box::new(a), Box::new(b), Box::new(c)]);
    assert_eq!(
        drain(&mut merge),
        pairs(&[("a", "c"), ("m", "a"), ("x", "a"), ("z", "b")])
    );
}

#[test]
fn failing_duplicate_source_is_dropped() {
    let a = ListIter::new(&[("a", "1"), ("b", "2")], None);
    let b = ListIter::new(&[("a", "9"), ("b", "8"), ("c", "7")], Some(2));
    let mut merge = MergeIterator::create(vec![Box::new(a), Box::new(b)]);
    assert_eq!(merge.key(), b"a");
    merge.next().unwrap();
    assert_eq!(merge.key(), b"b");
    assert_eq!(merge.value(), b"2");
    assert!(merge.next().is_err());
    assert_eq!(merge.key(), b"b");
    assert_eq!(merge.value(), b"2");
    merge.next().unwrap();
    assert!(!merge.is_valid());
}

#[test]
fn failing_current_source_ends_merge() {
    let a = ListIter::new(&[("a", "1"), ("b", "2")], Some(1));
    let b = ListIter::new(&[("c", "3")], None);
    let mut merge = MergeIterator::create(vec![Box::new(a), Box::new(b)]);
    assert!(merge.next().is_err());
    assert!(!merge.is_valid());
}

fn block_of(entries: &[(&str, &str)]) -> Arc<Block> {
    let mut data = Vec::new();
    let mut offsets = Vec::new();
    for (k, v) in entries {
        offsets.push(data.len() as u16);
        data.extend_from_slice(&(k.len() as u16).to_le_bytes());
        data.extend_from_slice(k.as_bytes());
        data.extend_from_slice(&(v.len() as u16).to_le_bytes());
        data.extend_from_slice(v.as_bytes());
    }
    Arc::new(Block { data, offsets })
}

#[test]
fn merge_of_block_iterators() {
    let newer = BlockIterator::create_and_seek_to_first(block_of(&[("b", "new"), ("d", "4")]));
    let older = BlockIterator::create_and_seek_to_first(block_of(&[("a", "1"), ("b", "old")]));
    let mut merge = MergeIterator::create(vec![Box::new(newer), Box::new(older)]);
    assert_eq!(drain(&mut merge), pairs(&[("a", "1"), ("b", "new"), ("d", "4")]));
}

#[test]
fn nested_merge() {
    let inner1 = MergeIterator::create(vec![
        Box::new(ListIter::new(&[("a", "1"), ("c", "1")], None)),
        Box::new(ListIter::new(&[("c", "2"), ("e", "2")], None)),
    ]);
    let inner2 = MergeIterator::create(vec![
        Box::new(ListIter::new(&[("a", "3"), ("f", "3")], None)),
        Box::new(ListIter::new(&[("b", "4")], None)),
    ]);
    let mut outer = MergeIterator::create(vec![Box::new(inner1), Box::new(inner2)]);
    assert_eq!(
        drain(&mut outer),
        pairs(&[("a", "1"), ("b", "4"), ("c", "1"), ("e", "2"), ("f", "3")])
    );
}
