//! Cutting a list into blocks of varying size.
use postings::partitioner::optimal_partition;
use postings::range_max::SparseTableMax;

const ALLOWED_SIZES: [usize; 5] = [16, 32, 64, 128, 256];

/// The partition with the least error: the sum over all postings of how far
/// their weight is below the largest of their block.
fn partition_of(weights: &[f32]) -> Vec<usize> {
    let bits: Vec<u32> = weights.iter().map(|w| w.to_bits()).collect();
    let rmq = SparseTableMax::new(&bits);
    let mut prefix_sum = vec![0.0f32; weights.len() + 1];
    for i in 0..weights.len() {
        prefix_sum[i + 1] = prefix_sum[i] + weights[i];
    }
    let extend = |cost: f64, start: usize, end: usize| {
        let block_max = f32::from_bits(rmq.query(start, end - 1)) as f64;
        let block_sum = (prefix_sum[end] - prefix_sum[start]) as f64;
        cost + ((end - start) as f64 * block_max - block_sum)
    };
    let less = |a: f64, b: f64| a < b;
    optimal_partition(weights.len(), 0.0, f64::MAX, &extend, &less)
}

fn partition_error(weights: &[f32], partition: &[usize]) -> f64 {
    let mut error = 0.0f64;
    let mut pos = 0;
    for &s in partition {
        let block = &weights[pos..pos + s];
        let block_max = block.iter().copied().fold(0.0f32, f32::max);
        let block_sum: f32 = block.iter().sum();
        error += (s as f64) * (block_max as f64) - (block_sum as f64);
        pos += s;
    }
    error
}

#[test]
fn test_empty() {
    let partition = partition_of(&[]);
    assert!(partition.is_empty());
}

#[test]
fn test_trivial_small() {
    // N ≤ 16: should return a single block
    let weights = vec![1.0; 10];
    let partition = partition_of(&weights);
    assert_eq!(partition.len(), 1);
    assert_eq!(partition[0], 10);
    assert_eq!(partition.iter().sum::<usize>(), 10);
}

#[test]
fn test_exact_block_size() {
    // N = 128: exactly one block of 128
    let weights = vec![1.0; 128];
    let partition = partition_of(&weights);
    let total: usize = partition.iter().sum();
    assert_eq!(total, 128);
    // All blocks should be allowed sizes
    for &s in &partition {
        assert!(ALLOWED_SIZES.contains(&s), "block size {} not allowed", s);
    }
}

#[test]
fn test_uniform_weights() {
    // Uniform weights: all blocks have zero error regardless of size.
    // DP should still produce a valid covering.
    let weights = vec![5.0; 256];
    let partition = partition_of(&weights);
    let total: usize = partition.iter().sum();
    assert_eq!(total, 256);
    for &s in &partition {
        assert!(ALLOWED_SIZES.contains(&s), "block size {} not allowed", s);
    }
    // Error should be ~0 for uniform weights
    let error = partition_error(&weights, &partition);
    assert!(error.abs() < 1e-6, "error should be ~0, got {}", error);
}

#[test]
fn test_outlier_isolation() {
    // 128 postings: one outlier (weight=100) at position 16, rest are weight=1.
    // Optimal partition should isolate the outlier in a small block.
    let mut weights = vec![1.0f32; 128];
    weights[16] = 100.0;

    let adaptive_partition = partition_of(&weights);
    let adaptive_total: usize = adaptive_partition.iter().sum();
    assert_eq!(adaptive_total, 128);

    let adaptive_error = partition_error(&weights, &adaptive_partition);
    let fixed_error = partition_error(&weights, &[128]);

    // The outlier inflates the fixed block's error enormously.
    // Adaptive should be significantly better.
    assert!(
        adaptive_error < fixed_error,
        "adaptive error ({}) should be < fixed error ({})",
        adaptive_error,
        fixed_error
    );

    // The outlier at position 16 should end up in a block of size 16 or 32 max.
    // Find which block contains position 16.
    let mut pos = 0;
    let mut outlier_block_size = 0;
    for &s in &adaptive_partition {
        if pos <= 16 && 16 < pos + s {
            outlier_block_size = s;
            break;
        }
        pos += s;
    }
    assert!(
        outlier_block_size <= 32,
        "outlier should be in a small block, got size {}",
        outlier_block_size
    );
}

#[test]
fn test_error_reduction_skewed() {
    // Skewed distribution: exponentially decaying weights
    let n = 512;
    let weights: Vec<f32> = (0..n).map(|i| 100.0 * (-0.01 * i as f32).exp()).collect();

    let adaptive_partition = partition_of(&weights);
    let adaptive_total: usize = adaptive_partition.iter().sum();
    assert_eq!(adaptive_total, n);

    let adaptive_error = partition_error(&weights, &adaptive_partition);

    // Fixed 128-block partition
    let fixed_partition: Vec<usize> = std::iter::repeat_n(128, n / 128).collect();
    let fixed_error = partition_error(&weights, &fixed_partition);

    assert!(
        adaptive_error < fixed_error,
        "adaptive error ({}) should be < fixed error ({})",
        adaptive_error,
        fixed_error
    );

    // Expect at least 20% reduction
    let reduction = 1.0 - adaptive_error / fixed_error;
    assert!(
        reduction > 0.20,
        "expected >20% error reduction, got {:.1}%",
        reduction * 100.0
    );
}

#[test]
fn test_non_coverable_length() {
    // N = 100: not exactly coverable by [16,32,64,128,256]
    // 64 + 32 + 4 won't work, but 64 + 16 + 16 + 4 won't either.
    // Actually 64 + 32 + ... nope. Let's just verify it works.
    // Possible: 32 + 32 + 32 + ... or 64 + 16 + 16 + ... nah.
    // 16*6 = 96, need 4 more. Tail fill will add a block of 4.
    // Wait: 16 + 16 + 16 + 16 + 16 + 16 + 4 = 100. Tail gets 4.
    let weights = vec![1.0; 100];
    let partition = partition_of(&weights);
    let total: usize = partition.iter().sum();
    assert_eq!(total, 100);
    // The last block may be < 16 (tail fill for non-coverable remainder)
}

#[test]
fn test_all_allowed_sizes_valid() {
    // For a coverable length, all blocks should be from ALLOWED_SIZES
    let weights = vec![1.0; 256];
    let partition = partition_of(&weights);
    for &s in &partition {
        assert!(ALLOWED_SIZES.contains(&s), "unexpected block size {}", s);
    }
}

#[test]
fn test_large_list() {
    // Stress: 10K postings with random-ish weights
    let n = 10_000;
    let weights: Vec<f32> = (0..n)
        .map(|i| {
            // Pseudo-random pattern
            let x = ((i * 7 + 13) % 97) as f32;
            x * 0.1 + 0.1
        })
        .collect();

    let partition = partition_of(&weights);
    let total: usize = partition.iter().sum();
    assert_eq!(total, n);

    // Should complete in negligible time (O(N×5))
    let adaptive_error = partition_error(&weights, &partition);
    assert!(adaptive_error >= 0.0);
}

#[test]
fn test_sparse_table_rmq() {
    let data = [3.0f32, 1.0, 4.0, 1.0, 5.0, 9.0, 2.0, 6.0];
    let bits: Vec<u32> = data.iter().map(|v| v.to_bits()).collect();
    let rmq = SparseTableMax::new(&bits);
    let query = |l, r| f32::from_bits(rmq.query(l, r));

    assert_eq!(query(0, 0), 3.0);
    assert_eq!(query(0, 7), 9.0);
    assert_eq!(query(4, 5), 9.0);
    assert_eq!(query(2, 4), 5.0);
    assert_eq!(query(6, 7), 6.0);
    assert_eq!(query(3, 3), 1.0);
    assert_eq!(query(5, 4), 0.0);
}

#[test]
fn whole_costs_give_the_cheapest_partition() {
    // Blocks of 32 are free, every other block costs one.
    let extend = |cost: u64, start: usize, end: usize| cost + u64::from(end - start != 32);
    let less = |a: u64, b: u64| a < b;
    assert_eq!(
        optimal_partition(96, 0u64, u64::MAX, &extend, &less),
        vec![32, 32, 32]
    );
    // What no blocks can end at is filled from the last place they can.
    let tail = optimal_partition(100, 0u64, u64::MAX, &extend, &less);
    assert_eq!(tail, vec![32, 32, 32, 4]);
    // Costs at the limit count as unreachable.
    let stuck = |_: u64, _: usize, _: usize| u64::MAX;
    assert_eq!(
        optimal_partition(300, 0u64, u64::MAX, &stuck, &less),
        vec![256, 32, 12]
    );
}
