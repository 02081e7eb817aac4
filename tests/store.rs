use dejavu::store::{MemoryStore, PostgresStore, ReferenceSample, Store};
use dejavu::fingerprint::Fingerprint;

fn sample(id: u128) -> ReferenceSample {
    ReferenceSample {
        id,
        fingerprints: vec![Fingerprint { hash: id * 3, time: 1 }],
        timesteps: 10,
        length_samples: 44100,
        sample_rate: 44100,
    }
}

#[test]
fn lookup_returns_what_was_stored() {
    let mut s = MemoryStore::new(8);
    s.set_reference_sample(5, sample(5));
    let got = s.get_reference_sample(&5).unwrap();
    assert_eq!(got.id, 5);
    assert_eq!(got.fingerprints, vec![Fingerprint { hash: 15, time: 1 }]);
    assert!(s.get_reference_sample(&6).is_none());
}

#[test]
fn ninth_insert_evicts_the_first() {
    let mut s = MemoryStore::new(8);
    for id in 1..=9u128 {
        s.set_reference_sample(id, sample(id));
    }
    assert!(s.get_reference_sample(&1).is_none());
    for id in 2..=9u128 {
        assert_eq!(s.get_reference_sample(&id).unwrap().id, id);
    }
}

#[test]
fn lookup_refreshes_recency() {
    let mut s = MemoryStore::new(2);
    s.put(1, sample(1));
    s.put(2, sample(2));
    assert!(s.get(1).is_some());
    s.put(3, sample(3));
    assert!(s.get(2).is_none());
    assert!(s.get(1).is_some());
    assert!(s.get(3).is_some());
}

#[test]
fn put_replaces_same_id() {
    let mut s = MemoryStore::new(2);
    s.put(1, sample(1));
    let mut other = sample(1);
    other.timesteps = 99;
    s.put(1, other);
    assert_eq!(s.get(1).unwrap().timesteps, 99);
}

#[test]
fn stub_store_keeps_nothing() {
    let mut s = PostgresStore {};
    s.set_reference_sample(1, sample(1));
    assert!(s.get_reference_sample(&1).is_none());
}

#[test]
fn trait_lookup_refreshes_recency() {
    let mut s = MemoryStore::new(2);
    s.set_reference_sample(10, sample(10));
    s.set_reference_sample(20, sample(20));
    assert_eq!(s.get_reference_sample(&10).unwrap().id, 10);
    s.set_reference_sample(30, sample(30));
    assert!(s.get_reference_sample(&20).is_none());
    assert_eq!(s.get_reference_sample(&10).unwrap().id, 10);
    assert_eq!(s.get_reference_sample(&30).unwrap().id, 30);
}
