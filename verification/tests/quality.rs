use dupfinder::quality::{
    avalanche, bucket_counts, buckets_by_count, collision_groups, counter_samples, distinct_hashes,
    distinct_sample_hashes, hash_bytes, hash_triple, hash_word, histogram_bars, pattern_input, pattern_probes,
    used_buckets, Bucket, Pattern, Probe, LCG_MUL,
};

#[test]
fn patterns_wrap_around() {
    assert_eq!(pattern_input(Pattern::Repeat, 7, 3), vec![7, 7, 7]);
    assert_eq!(pattern_input(Pattern::Count, 250, 10), vec![250, 251, 252, 253, 254, 255, 0, 1, 2, 3]);
    let mut eighths = vec![255u8; 8];
    eighths.extend([0u8; 8]);
    eighths.push(1);
    assert_eq!(pattern_input(Pattern::CountEighths, 255, 17), eighths);
    assert!(pattern_input(Pattern::Count, 3, 0).is_empty());
}

#[test]
fn fingerprints_of_known_inputs() {
    assert_eq!(hash_bytes(b"abc"), 0x2be43e5f6aaad8f4);
    assert_eq!(hash_bytes(&[0]), 0xd0f68343b2046da2);
    assert_eq!(hash_word(0), 0x855061a7b73275a9);
    assert_eq!(hash_word(1), 0x18dc821ea363f1ba);
    assert_eq!(hash_triple(1, 2, 3), 0x96038a5e80158aa4);
}

#[test]
fn probes_cover_every_prefix() {
    let probes = pattern_probes(Pattern::Repeat, 0);
    assert_eq!(probes.len(), 256);
    assert_eq!(probes[0], Probe { hash: 0xd0f68343b2046da2, first: 0, len: 1 });
    assert_eq!(probes[255], Probe { hash: 0x877e6cbb2cfb2c96, first: 0, len: 256 });
    for (k, p) in probes.iter().enumerate() {
        assert_eq!(p.len as usize, k + 1);
        assert_eq!(p.hash, hash_bytes(&vec![0u8; k + 1]));
    }
}

#[test]
fn pattern_prefixes_do_not_collide() {
    for p in [Pattern::Repeat, Pattern::Count, Pattern::CountEighths] {
        for first in [0u8, 0x80] {
            assert_eq!(distinct_hashes(pattern_probes(p, first)), 256);
        }
    }
}

#[test]
fn collisions_are_grouped() {
    let probe = |hash, first, len| Probe { hash, first, len };
    let probes = vec![probe(9, 1, 4), probe(3, 0, 2), probe(9, 0, 7), probe(5, 2, 1), probe(9, 0, 3)];
    assert_eq!(distinct_hashes(probes.clone()), 3);
    let (sorted, runs) = collision_groups(probes);
    assert_eq!(
        sorted,
        vec![probe(3, 0, 2), probe(5, 2, 1), probe(9, 0, 3), probe(9, 0, 7), probe(9, 1, 4)]
    );
    let r: Vec<(usize, usize)> = runs.iter().map(|r| (r.start, r.count)).collect();
    assert_eq!(r, vec![(0, 1), (1, 1), (2, 3)]);
    assert_eq!(distinct_hashes(Vec::new()), 0);
}

#[test]
fn counters_never_collide() {
    let samples = counter_samples(1000);
    assert_eq!(samples.len(), 1000);
    assert_eq!(distinct_sample_hashes(&samples), 1000);
    assert_eq!((samples[0].hash, samples[0].index), (16337467812900589, 954));
    for w in samples.windows(2) {
        assert!(w[0].hash < w[1].hash);
    }
    for s in &samples {
        assert_eq!(s.hash, hash_word(s.index));
    }
}

#[test]
fn bucket_counts_add_up_to_the_cells() {
    assert_eq!(bucket_counts(2, 3), vec![3, 5, 0]);
    let counts = bucket_counts(4, 5);
    assert_eq!(counts, vec![12, 13, 13, 10, 16]);
    assert_eq!(counts.iter().sum::<u32>(), 64);
    assert_eq!(bucket_counts(0, 4), vec![0, 0, 0, 0]);
    let one = bucket_counts(3, 1);
    assert_eq!(one, vec![27]);
}

#[test]
fn used_and_sorted_buckets() {
    assert_eq!(used_buckets(&vec![0, 3, 0, 1]), 2);
    assert_eq!(used_buckets(&vec![]), 0);
    let b = |index, count| Bucket { index, count };
    assert_eq!(buckets_by_count(&vec![5, 0, 5, 1]), vec![b(1, 0), b(3, 1), b(0, 5), b(2, 5)]);
}

#[test]
fn avalanche_counts_flipped_bits() {
    let one = avalanche(1);
    assert_eq!(one.len(), 4096);
    assert_eq!(one.iter().sum::<u32>(), 2020);
    let row0: u64 = (0..64).map(|o| (one[o] as u64) << o).sum();
    assert_eq!(row0, 0x599f47b6e82da549);

    let input = 1u64.wrapping_mul(LCG_MUL).wrapping_add(1);
    let diff = hash_word(input) ^ hash_word(input ^ (1 << 10));
    for o in 0..64 {
        assert_eq!(one[64 * 10 + o] as u64, (diff >> o) & 1);
    }

    let five = avalanche(5);
    assert_eq!(five.iter().sum::<u32>(), 10288);
    assert_eq!((five[0], five[64 * 10 + 3], five[4095]), (3, 1, 5));
    assert!(avalanche(0).iter().all(|&c| c == 0));
}

#[test]
fn histogram_bar_lengths() {
    let (width, bars) = histogram_bars(&vec![0, 1, 3, 100, 256]);
    assert_eq!(width, 4);
    assert_eq!(bars, vec![(0, 0, 0), (0, 0, 1), (1, 0, 1), (7, 32, 0), (9, 91, 0)]);
    let (width, bars) = histogram_bars(&vec![]);
    assert_eq!((width, bars.len()), (2, 0));
    let (width, bars) = histogram_bars(&vec![0, 0]);
    assert_eq!((width, bars), (2, vec![(0, 0, 0), (0, 0, 0)]));
}
