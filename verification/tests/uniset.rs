use uniset::layout::round_bits_up;
use uniset::{bit_set_layout, round_capacity_up, AtomicBitSet, BitSet, Layer};

fn assert_traits<T: Send + Sync>(_: T) {}

fn drain_all(set: &mut BitSet) -> Vec<usize> {
    let mut drain = set.drain();
    let mut out = Vec::new();
    while let Some(p) = drain.next() {
        out.push(p);
    }
    out
}

fn iter_all(set: &BitSet) -> Vec<usize> {
    let mut iter = set.iter();
    let mut out = Vec::new();
    while let Some(p) = iter.next() {
        out.push(p);
    }
    out
}

fn layer_caps(capacity: usize) -> Vec<usize> {
    bit_set_layout(capacity).iter().map(|l| l.cap).collect()
}

fn all_layers_zero(set: &BitSet) -> bool {
    set.as_slice().iter().all(|l| l.iter().all(|n| *n == 0))
}

fn drain_case(cap: usize, positions: Vec<usize>) {
    let mut set = BitSet::new();
    set.reserve(cap);
    for p in positions.iter().copied() {
        set.set(p);
    }
    assert_eq!(positions, drain_all(&mut set));
    assert!(all_layers_zero(&set));
}

fn iter_case(cap: usize, positions: Vec<usize>) {
    let mut set = BitSet::new();
    set.reserve(cap);
    for p in positions.iter().copied() {
        set.set(p);
    }
    assert_eq!(positions, iter_all(&set));
}

#[test]
fn assert_send_and_sync() {
    assert_traits(BitSet::new());
    assert_traits(AtomicBitSet::new());
}

#[test]
fn test_set_and_test() {
    let mut set = BitSet::new();
    set.reserve(1024);
    set.set(1);
    set.set(64);
    set.set(129);
    set.set(1023);

    assert!(set.test(1));
    assert!(set.test(64));
    assert!(set.test(129));
    assert!(set.test(1023));
    assert!(!set.test(1022));

    let mut layer0 = [0usize; 16];
    layer0[0] = 1 << 1;
    layer0[1] = 1;
    layer0[2] = 1 << 1;
    layer0[15] = 1 << 63;

    let mut layer1 = [0usize; 1];
    layer1[0] = (1 << 15) | (1 << 2) | (1 << 1) | 1;

    let layers: Vec<&[usize]> = set.as_slice().iter().map(|l| l.as_slice()).collect();
    assert_eq!(vec![&layer0[..], &layer1[..]], layers);
}

#[test]
fn test_bit_layout() {
    assert!(layer_caps(0).is_empty());
    assert_eq!(vec![1], layer_caps(64));
    assert_eq!(vec![2, 1], layer_caps(128));
    assert_eq!(vec![64, 1], layer_caps(4096));
    assert_eq!(vec![65, 2, 1], layer_caps(4097));
    assert_eq!(vec![2, 1], layer_caps(65));
    assert_eq!(vec![2, 1], layer_caps(128));
    assert_eq!(vec![3, 1], layer_caps(129));
    assert_eq!(vec![65, 2, 1], layer_caps(4097));
}

#[test]
fn test_reserve() {
    let mut b = BitSet::new();
    b.reserve(1_000);
    b.reserve(10_000);

    assert_ne!(bit_set_layout(1_000), bit_set_layout(10_000));
}

#[test]
fn test_drain() {
    drain_case(0, vec![]);
    drain_case(1024, vec![]);
    drain_case(64, vec![0]);
    drain_case(64, vec![0, 1]);
    drain_case(64, vec![0, 1, 63]);
    drain_case(128, vec![64]);
    drain_case(128, vec![0, 32, 64]);
    drain_case(4096, vec![0, 32, 64, 3030, 4095]);
    drain_case(
        1_000_000,
        vec![0, 32, 64, 3030, 4095, 50_000, 102110, 203020, 500000, 803020, 900900],
    );
    drain_case(1_000_000, (0..1_000_000).collect::<Vec<usize>>());
    drain_case(
        10_000_000,
        vec![0, 32, 64, 3030, 4095, 50_000, 102110, 203020, 500000, 803020, 900900, 9_009_009],
    );
}

#[test]
fn test_iter() {
    iter_case(0, vec![]);
    iter_case(1024, vec![]);
    iter_case(64, vec![0, 2]);
    iter_case(64, vec![0, 1]);
    iter_case(128, vec![64]);
    iter_case(128, vec![0, 32, 64]);
    iter_case(4096, vec![0, 32, 64, 3030, 4095]);
    iter_case(
        1_000_000,
        vec![0, 32, 64, 3030, 4095, 50_000, 102110, 203020, 500000, 803020, 900900],
    );
    iter_case(
        10_000_000,
        vec![0, 32, 64, 3030, 4095, 50_000, 102110, 203020, 500000, 803020, 900900, 9_009_009],
    );
    iter_case(1_000_000, (0..1_000_000).collect::<Vec<usize>>());
}

#[test]
fn test_round_capacity_up() {
    assert_eq!(0, round_capacity_up(0));
    assert_eq!(16, round_capacity_up(1));
    assert_eq!(32, round_capacity_up(17));
    assert_eq!(32, round_capacity_up(32));
    assert_eq!((usize::MAX >> 1) + 1, round_capacity_up(usize::MAX >> 1));
    assert_eq!(usize::MAX, round_capacity_up((1usize << 63) + 1));
}

#[test]
fn test_grow_one_at_a_time() {
    let mut active = BitSet::new();

    for i in 0..128 {
        active.reserve(i);
    }
}

// ---------------------------------------------------------------------------
// Scenarios from the documentation.

#[test]
fn readme_example() {
    let mut set = BitSet::new();
    assert!(set.is_empty());
    assert_eq!(0, set.capacity());

    set.set(127);
    set.set(128);
    assert!(!set.is_empty());

    assert!(set.test(128));
    assert_eq!(vec![127, 128], iter_all(&set));
    assert!(!set.is_empty());

    assert_eq!(vec![127, 128], drain_all(&mut set));
    assert!(set.is_empty());
}

#[test]
fn with_capacity_rounds_and_starts_empty() {
    let set = BitSet::with_capacity(1024);
    assert!(set.is_empty());
    assert_eq!(1024, set.capacity());
    let set = BitSet::with_capacity(1000);
    assert_eq!(1024, set.capacity());
    let set = BitSet::with_capacity(3);
    assert_eq!(16, set.capacity());
}

#[test]
fn set_and_clear_single_bit() {
    let mut set = BitSet::with_capacity(64);
    set.clear(2);
    assert!(set.is_empty());
    set.set(2);
    assert!(!set.is_empty());
    assert!(set.test(2));
    assert!(!set.test(3));
    set.clear(2);
    assert!(set.is_empty());
    set.clear(2);
    assert!(set.is_empty());
}

#[test]
fn clear_keeps_neighbours() {
    // Clearing one of two positions in the same word keeps the other one, and
    // the summary layers still report it.
    let mut set = BitSet::with_capacity(128);
    set.set(1);
    set.set(2);
    set.set(100);
    set.clear(1);
    assert!(!set.is_empty());
    assert!(!set.test(1));
    assert!(set.test(2));
    assert_eq!(vec![2, 100], iter_all(&set));
    set.clear(100);
    assert_eq!(vec![2], iter_all(&set));
    assert_eq!(vec![&[0b100usize, 0][..], &[1usize][..]], set.as_slice().iter().map(|l| l.as_slice()).collect::<Vec<_>>());
    set.clear(2);
    assert!(set.is_empty());
    assert!(all_layers_zero(&set));
}

#[test]
fn as_slice_layers() {
    let mut set = BitSet::with_capacity(128);
    set.set(1);
    set.set(5);
    let layers: Vec<&[usize]> = set.as_slice().iter().map(|l| l.as_slice()).collect();
    assert_eq!(vec![&[0b100010usize, 0][..], &[1usize][..]], layers);
}

#[test]
fn reserve_rounds_to_power_of_two() {
    let mut set = BitSet::with_capacity(128);
    assert_eq!(128, set.capacity());
    set.reserve(250);
    assert_eq!(256, set.capacity());
    set.reserve(10);
    assert_eq!(256, set.capacity());
}

#[test]
fn reserve_keeps_positions_and_summaries() {
    let mut set = BitSet::with_capacity(64);
    set.set(3);
    set.set(63);
    set.reserve(5000);
    assert_eq!(8192, set.capacity());
    assert_eq!(vec![3, 63], iter_all(&set));
    let layers: Vec<Vec<usize>> = set.as_slice().iter().map(|l| l.as_slice().to_vec()).collect();
    assert_eq!(3, layers.len());
    assert_eq!(128, layers[0].len());
    assert_eq!((1usize << 3) | (1usize << 63), layers[0][0]);
    assert_eq!(vec![1usize, 0], layers[1]);
    assert_eq!(vec![1usize], layers[2]);
}

#[test]
fn set_grows_the_set() {
    let mut set = BitSet::new();
    set.set(1000);
    assert_eq!(1024, set.capacity());
    assert!(set.test(1000));
    set.set(5000);
    assert_eq!(8192, set.capacity());
    assert_eq!(vec![1000, 5000], iter_all(&set));
}

#[test]
fn drain_one_at_a_time() {
    let mut set = BitSet::with_capacity(128);
    set.set(127);
    set.set(32);
    set.set(3);

    assert_eq!(Some(3), set.drain().next());
    assert_eq!(Some(32), set.drain().next());
    assert_eq!(Some(127), set.drain().next());
    assert!(set.is_empty());
}

#[test]
fn drain_snapshot_states() {
    let mut set = BitSet::with_capacity(128);
    set.set(127);
    set.set(32);
    set.set(3);

    let mut it = set.drain();
    assert_eq!(Some(3), it.next());
    assert_eq!(Some(32), it.next());
    assert!(it.snapshot().is_some());
    assert_eq!(Some(127), it.next());
    assert!(it.snapshot().is_none());
    assert_eq!(None, it.next());
    assert!(it.snapshot().is_none());
}

#[test]
fn drain_from_snapshot() {
    let mut set = BitSet::with_capacity(128);
    set.set(127);
    set.set(32);
    set.set(3);

    let mut it = set.drain();
    assert_eq!(Some(3), it.next());
    let snapshot = it.snapshot();
    drop(it);

    let snapshot = snapshot.expect("draining iteration hasn't ended");
    let mut it = set.drain_from(snapshot);
    assert_eq!(Some(32), it.next());
    assert_eq!(Some(127), it.next());
    assert_eq!(None, it.next());
}

#[test]
fn drain_snapshot_of_single_bit() {
    let mut set = BitSet::with_capacity(128);
    set.set(3);
    let mut it = set.drain();
    assert!(it.snapshot().is_some());
    assert_eq!(Some(3), it.next());
    assert!(it.snapshot().is_none());
}

#[test]
fn drain_of_empty_capacity_set() {
    let mut set = BitSet::new();
    let mut it = set.drain();
    assert!(it.snapshot().is_none());
    assert_eq!(None, it.next());
}

#[test]
fn iter_leaves_set_untouched_and_is_fused() {
    let mut set = BitSet::with_capacity(4096);
    set.set(4095);
    set.set(0);
    let mut it = set.iter();
    assert_eq!(Some(0), it.next());
    assert_eq!(Some(4095), it.next());
    assert_eq!(None, it.next());
    assert_eq!(None, it.next());
    assert!(set.test(0));
    assert!(set.test(4095));
}

#[test]
fn atomic_round_trip() {
    let set = BitSet::with_capacity(1024);
    let atomic = set.into_atomic();
    atomic.set(42);
    atomic.set(1000);
    let set = atomic.into_local();
    assert!(set.test(42));
    assert!(set.test(1000));
    assert!(!set.test(43));
    assert_eq!(1024, set.capacity());
    assert_eq!(vec![42, 1000], iter_all(&set));
}

#[test]
fn atomic_new_and_capacity() {
    let set = AtomicBitSet::new();
    assert_eq!(0, set.capacity());
    let set = set.into_local();
    assert!(set.is_empty());
    let set = AtomicBitSet::default();
    assert_eq!(0, set.capacity());
}

#[test]
fn atomic_keeps_existing_bits() {
    let mut set = BitSet::with_capacity(1024);
    set.set(21);
    let atomic = set.into_atomic();
    atomic.set(42);
    let mut set = atomic.into_local();
    set.clear(21);
    assert!(!set.test(21));
    assert!(set.test(42));
}

#[test]
fn layer_basics() {
    assert_eq!(&[0usize; 4][..], Layer::with_capacity(4).as_slice());

    let mut layer = Layer::with_capacity(2);
    let mut it = layer.iter();
    assert_eq!(Some(&0), it.next());
    assert_eq!(Some(&0), it.next());
    assert_eq!(None, it.next());

    layer.set(0, 63);
    let mut it = layer.iter();
    assert_eq!(Some(&(1 << 63)), it.next());
    assert_eq!(Some(&0), it.next());
    assert_eq!(None, it.next());

    assert!(layer.test(0, 63));
    assert!(!layer.test(0, 62));
    layer.clear(0, 63);
    assert_eq!(&[0usize, 0][..], layer.as_slice());
}

#[test]
fn layer_slices_and_growth() {
    let mut layer = Layer::with_capacity(2);
    layer.set(0, 42);
    assert_eq!(1 << 42, layer.as_slice()[0]);
    layer.as_mut_slice()[0] = 42;
    assert_eq!(&[42usize, 0][..], layer.as_slice());

    let mut layer = Layer::with_capacity(0);
    assert!(layer.as_slice().is_empty());
    layer.grow(2);
    assert_eq!(&[0usize, 0][..], layer.as_slice());
    layer.set(1, 0);
    layer.grow(1);
    assert_eq!(&[0usize, 1][..], layer.as_slice());
    layer.grow(3);
    assert_eq!(&[0usize, 1, 0][..], layer.as_slice());

    let layer = Layer::from(vec![7usize, 8]);
    assert_eq!(&[7usize, 8][..], layer.as_slice());
}

#[test]
fn layout_of_awkward_capacities() {
    assert_eq!(vec![1], layer_caps(1));
    assert_eq!(vec![1], layer_caps(63));
    assert_eq!(vec![4097, 65, 2, 1], layer_caps(262_145));
}

#[test]
fn round_capacity_up_edges() {
    assert_eq!(16, round_capacity_up(16));
    assert_eq!(64, round_capacity_up(33));
    assert_eq!(1 << 63, round_capacity_up(1 << 63));
    assert_eq!(1 << 62, round_capacity_up((1 << 61) + 1));
}

#[test]
fn default_is_empty() {
    let set = BitSet::default();
    assert!(set.is_empty());
    assert_eq!(0, set.capacity());
}

#[test]
fn clone_is_independent() {
    let mut set = BitSet::with_capacity(64);
    set.set(7);
    let copy = set.clone();
    set.clear(7);
    assert!(copy.test(7));
    assert!(!set.test(7));
}

#[test]
fn iter_and_drain_agree() {
    let mut set = BitSet::with_capacity(1 << 20);
    for p in [900_000usize, 3, 64, 65, 4095, 4096, 262_143, 262_144] {
        set.set(p);
    }
    let iterated = iter_all(&set);
    let drained = drain_all(&mut set);
    assert_eq!(vec![3, 64, 65, 4095, 4096, 262_143, 262_144, 900_000], iterated);
    assert_eq!(iterated, drained);
    assert!(set.is_empty());
}

#[test]
fn round_bits_up_values() {
    assert_eq!(0, round_bits_up(0));
    assert_eq!(64, round_bits_up(1));
    assert_eq!(64, round_bits_up(64));
    assert_eq!(128, round_bits_up(65));
}

#[test]
fn drain_snapshot_follows_capacity_and_contents() {
    let mut set = BitSet::with_capacity(64);
    let mut it = set.drain();
    assert!(it.snapshot().is_some());
    assert_eq!(None, it.next());
    assert!(it.snapshot().is_none());

    let mut set = BitSet::with_capacity(4096);
    set.set(4000);
    set.set(5);
    let mut it = set.drain();
    assert_eq!(Some(5), it.next());
    assert!(it.snapshot().is_some());
    assert_eq!(Some(4000), it.next());
    assert!(it.snapshot().is_none());
    assert_eq!(None, it.next());
}

#[test]
fn iterating_twice_gives_the_same() {
    let mut set = BitSet::with_capacity(1 << 16);
    for p in [7usize, 4096, 65_000, 63, 64] {
        set.set(p);
    }
    let first = iter_all(&set);
    let second = iter_all(&set);
    assert_eq!(vec![7, 63, 64, 4096, 65_000], first);
    assert_eq!(first, second);
}

#[test]
fn into_local_of_new_atomic_set_is_empty() {
    let set = AtomicBitSet::new().into_local();
    assert!(set.is_empty());
    assert_eq!(0, set.capacity());
}

#[test]
fn from_layer_words_decodes_layer_zero() {
    let set = BitSet::from_layer_words(&[0b101, 1 << 63], 128);
    assert_eq!(128, set.capacity());
    assert_eq!(vec![0, 2, 127], iter_all(&set));
    let layers: Vec<Vec<usize>> = set.as_slice().iter().map(|l| l.as_slice().to_vec()).collect();
    assert_eq!(vec![vec![0b101usize, 1 << 63], vec![0b11usize]], layers);

    let set = BitSet::from_layer_words(&[(1 << 20) | 1], 16);
    assert_eq!(vec![0], iter_all(&set));

    let set = BitSet::from_layer_words(&[], 0);
    assert!(set.is_empty());
    assert_eq!(0, set.capacity());
}
