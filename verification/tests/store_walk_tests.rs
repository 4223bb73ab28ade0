use cln::errors::Error;
use cln::store::ObjectStore;
use cln::tree::Tree;
use cln::walk::{plan_level, CheckoutDir, Walker};

#[test]
fn store_write_once_keeps_first_bytes() {
    // Write-once: a second write under the same hash, with different
    // bytes, leaves the first write's bytes intact.
    let mut store = ObjectStore::new();
    store.write_blob_once(&b"h1".to_vec(), &b"first".to_vec());
    store.write_blob_once(&b"h1".to_vec(), &b"second".to_vec());
    assert_eq!(store.read_tree_text(&b"h1".to_vec()).unwrap(), b"first".to_vec());
}

#[test]
fn store_tree_text_round_trip() {
    let mut store = ObjectStore::new();
    assert!(store.read_tree_text(&b"t1".to_vec()).is_none());
    store.write_tree_text_once(&b"t1".to_vec(), &b"100644 blob a f".to_vec());
    assert!(store.has(&b"t1".to_vec()));
    assert_eq!(store.read_tree_text(&b"t1".to_vec()).unwrap(), b"100644 blob a f".to_vec());
}

#[test]
fn store_cache_bypass_decision() {
    // Once a hash is present, nothing needs to be fetched for it.
    let mut store = ObjectStore::new();
    assert!(store.needs_backend_bytes(&b"h1".to_vec()));
    store.write_blob_once(&b"h1".to_vec(), &b"data".to_vec());
    assert!(!store.needs_backend_bytes(&b"h1".to_vec()));
}

#[test]
fn plan_level_splits_kinds() {
    let text = b"100644 blob b1\tREADME\n040000 tree t1\tsrc\n120000 symlink s1\tlink".to_vec();
    let tree = Tree::parse(&text, b".".to_vec()).unwrap();
    let plan = plan_level(&tree);
    assert_eq!(plan.blobs.len(), 1);
    assert_eq!(plan.subtrees.len(), 1);
    assert_eq!(plan.blobs[0].hash, b"b1".to_vec());
    assert_eq!(plan.blobs[0].mode, b"100644".to_vec());
    assert_eq!(plan.blobs[0].dir, b".".to_vec());
    assert_eq!(plan.blobs[0].rel_path, b"README".to_vec());
    assert_eq!(plan.subtrees[0].hash, b"t1".to_vec());
    assert_eq!(plan.subtrees[0].base, b"src".to_vec());
}

#[test]
fn plan_level_joins_nested_paths() {
    let text = b"100644 blob b2\tutil.c\n040000 tree t2\tdeep".to_vec();
    let tree = Tree::parse(&text, b"src".to_vec()).unwrap();
    let plan = plan_level(&tree);
    assert_eq!(plan.blobs[0].rel_path, b"src/util.c".to_vec());
    assert_eq!(plan.blobs[0].dir, b"src".to_vec());
    assert_eq!(plan.subtrees[0].base, b"src/deep".to_vec());
}

#[test]
fn walker_queues_and_pops_subtrees() {
    let mut walker = Walker::new();
    assert!(walker.next().is_none());
    let root = Tree::parse(&b"040000 tree t1\ta\n040000 tree t2\tb".to_vec(), b".".to_vec())
        .unwrap();
    let blobs = walker.expand(&root);
    assert_eq!(blobs.len(), 0);
    let second = walker.next().unwrap();
    assert_eq!(second.hash, b"t2".to_vec());
    let first = walker.next().unwrap();
    assert_eq!(first.hash, b"t1".to_vec());
    assert!(walker.next().is_none());
}

#[test]
fn link_blob_materializes_and_resumes() {
    // Idempotent materialize: the second run changes nothing and
    // reports no error.
    let mut store = ObjectStore::new();
    store.write_blob_once(&b"b1".to_vec(), &b"content".to_vec());
    let tree = Tree::parse(&b"100644 blob b1\tREADME".to_vec(), b".".to_vec()).unwrap();
    let plan = plan_level(&tree);
    let mut co = CheckoutDir::new();
    co.link_blob(&store, &plan.blobs[0]).unwrap();
    assert_eq!(co.linked_hash(&b"README".to_vec()).unwrap(), b"b1".to_vec());
    co.link_blob(&store, &plan.blobs[0]).unwrap();
    assert_eq!(co.linked_hash(&b"README".to_vec()).unwrap(), b"b1".to_vec());
}

#[test]
fn link_blob_fails_without_store_entry() {
    let store = ObjectStore::new();
    let tree = Tree::parse(&b"100644 blob missing\tREADME".to_vec(), b".".to_vec()).unwrap();
    let plan = plan_level(&tree);
    let mut co = CheckoutDir::new();
    let err = co.link_blob(&store, &plan.blobs[0]).unwrap_err();
    assert_eq!(err, Error::HardLinkError);
    assert!(co.linked_hash(&b"README".to_vec()).is_none());
}

#[test]
fn link_blob_leaves_existing_file_untouched() {
    let mut store = ObjectStore::new();
    store.write_blob_once(&b"old".to_vec(), &b"x".to_vec());
    let first = Tree::parse(&b"100644 blob old\tf".to_vec(), b".".to_vec()).unwrap();
    let mut co = CheckoutDir::new();
    co.link_blob(&store, &plan_level(&first).blobs[0]).unwrap();
    // A later task for the same path, even with another hash, is
    // skipped: the existing file stays.
    store.write_blob_once(&b"new".to_vec(), &b"y".to_vec());
    let second = Tree::parse(&b"100644 blob new\tf".to_vec(), b".".to_vec()).unwrap();
    co.link_blob(&store, &plan_level(&second).blobs[0]).unwrap();
    assert_eq!(co.linked_hash(&b"f".to_vec()).unwrap(), b"old".to_vec());
}

#[test]
fn shared_blob_hash_is_one_entry_two_links() {
    // Dedup: two files carrying one hash need one store entry and
    // link to the same content.
    let mut store = ObjectStore::new();
    store.write_blob_once(&b"shared".to_vec(), &b"bytes".to_vec());
    store.write_blob_once(&b"shared".to_vec(), &b"bytes".to_vec());
    let t1 = Tree::parse(&b"100644 blob shared\tcopy1".to_vec(), b".".to_vec()).unwrap();
    let t2 = Tree::parse(&b"100644 blob shared\tcopy2".to_vec(), b".".to_vec()).unwrap();
    let mut co = CheckoutDir::new();
    co.link_blob(&store, &plan_level(&t1).blobs[0]).unwrap();
    co.link_blob(&store, &plan_level(&t2).blobs[0]).unwrap();
    let h1 = co.linked_hash(&b"copy1".to_vec()).unwrap();
    let h2 = co.linked_hash(&b"copy2".to_vec()).unwrap();
    assert_eq!(h1, h2);
    assert_eq!(h1, b"shared".to_vec());
    assert_eq!(store.read_tree_text(&b"shared".to_vec()).unwrap(), b"bytes".to_vec());
}

#[test]
fn materialize_level_runs_all_tasks() {
    let mut store = ObjectStore::new();
    store.write_blob_once(&b"b1".to_vec(), &b"one".to_vec());
    store.write_blob_once(&b"b2".to_vec(), &b"two".to_vec());
    let tree = Tree::parse(&b"100644 blob b1\ta\n100644 blob b2\tb".to_vec(), b".".to_vec())
        .unwrap();
    let plan = plan_level(&tree);
    let mut co = CheckoutDir::new();
    co.materialize_level(&store, &plan.blobs).unwrap();
    assert_eq!(co.linked_hash(&b"a".to_vec()).unwrap(), b"b1".to_vec());
    assert_eq!(co.linked_hash(&b"b".to_vec()).unwrap(), b"b2".to_vec());
    // A second run of the same level is a no-op and reports no error.
    co.materialize_level(&store, &plan.blobs).unwrap();
    assert_eq!(co.linked_hash(&b"a".to_vec()).unwrap(), b"b1".to_vec());
}

#[test]
fn materialize_level_stops_at_missing_blob_and_resumes() {
    let mut store = ObjectStore::new();
    store.write_blob_once(&b"b1".to_vec(), &b"one".to_vec());
    let tree = Tree::parse(&b"100644 blob b1\ta\n100644 blob b2\tb".to_vec(), b".".to_vec())
        .unwrap();
    let plan = plan_level(&tree);
    let mut co = CheckoutDir::new();
    let err = co.materialize_level(&store, &plan.blobs).unwrap_err();
    assert_eq!(err, Error::HardLinkError);
    // The task before the failing one is in place.
    assert_eq!(co.linked_hash(&b"a".to_vec()).unwrap(), b"b1".to_vec());
    assert!(co.linked_hash(&b"b".to_vec()).is_none());
    // Once the store is filled, the same level completes.
    store.write_blob_once(&b"b2".to_vec(), &b"two".to_vec());
    co.materialize_level(&store, &plan.blobs).unwrap();
    assert_eq!(co.linked_hash(&b"b".to_vec()).unwrap(), b"b2".to_vec());
}

#[test]
fn walk_a_two_level_tree_end_to_end() {
    // A root with one file and one subtree; the subtree holds one
    // file. Drive the walk the way the shell does, with the listing
    // text served from the store cache.
    let mut store = ObjectStore::new();
    store.write_tree_text_once(
        &b"root".to_vec(),
        &b"100644 blob b1\tREADME\n040000 tree sub\tsrc".to_vec(),
    );
    store.write_tree_text_once(&b"sub".to_vec(), &b"100644 blob b2\tmain.c".to_vec());
    store.write_blob_once(&b"b1".to_vec(), &b"readme".to_vec());
    store.write_blob_once(&b"b2".to_vec(), &b"main".to_vec());

    let mut co = CheckoutDir::new();
    let mut walker = Walker::new();
    let root_text = store.read_tree_text(&b"root".to_vec()).unwrap();
    let root = Tree::parse(&root_text, b".".to_vec()).unwrap();
    let mut blobs = walker.expand(&root);
    loop {
        for task in &blobs {
            co.link_blob(&store, task).unwrap();
        }
        match walker.next() {
            Some(sub) => {
                let text = store.read_tree_text(&sub.hash).unwrap();
                let tree = Tree::parse(&text, sub.base.clone()).unwrap();
                blobs = walker.expand(&tree);
            }
            None => break,
        }
    }
    assert_eq!(co.linked_hash(&b"README".to_vec()).unwrap(), b"b1".to_vec());
    assert_eq!(co.linked_hash(&b"src/main.c".to_vec()).unwrap(), b"b2".to_vec());
}
