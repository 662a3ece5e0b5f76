//! Configuration of sparse vectors.
use postings::sparse_config::QueryWeighting;
use postings::sparse_config::SeismicConfig;
use postings::sparse_config::SeismicError;
use postings::sparse_config::SparseFormat;
use postings::sparse_config::SparseQueryConfig;
use postings::sparse_config::SparseVectorConfig;
use postings::sparse_config::WeightQuantization;

#[test]
fn sparse_default_uses_bmp_with_bounded_seismic_settings() {
    let config = SparseVectorConfig::default();
    assert_eq!(config.format, SparseFormat::Bmp);
    config.seismic.validate().unwrap();
    let query = SparseQueryConfig::default();
    assert!(!query.exhaustive);
    assert_eq!(query.seismic_cut, 10);
    let restored = SparseVectorConfig::from_byte(config.to_byte()).unwrap();
    assert_eq!(restored.format, SparseFormat::Bmp);
}

#[test]
fn every_sparse_format_roundtrips_independently_of_the_default() {
    for format in [
        SparseFormat::Bmp,
        SparseFormat::MaxScore,
        SparseFormat::Seismic,
    ] {
        for weight_quantization in [
            WeightQuantization::Float32,
            WeightQuantization::Float16,
            WeightQuantization::UInt8,
            WeightQuantization::UInt4,
        ] {
            let config = SparseVectorConfig {
                format,
                weight_quantization,
                ..Default::default()
            };
            let decoded = SparseVectorConfig::from_byte(config.to_byte()).unwrap();
            assert_eq!(decoded.format, format);
            assert_eq!(decoded.weight_quantization, weight_quantization);
            assert_eq!(decoded, config);
        }
    }
    assert!(SparseVectorConfig::from_byte(0x90).is_none());
}

#[test]
fn seismic_build_settings_reject_unbounded_or_nonfinite_work() {
    for config in [
        SeismicConfig {
            postings: 0,
            ..SeismicConfig::default()
        },
        SeismicConfig {
            postings: 65_537,
            ..SeismicConfig::default()
        },
        SeismicConfig {
            cluster_size: 0,
            ..SeismicConfig::default()
        },
        SeismicConfig {
            cluster_size: 4097,
            ..SeismicConfig::default()
        },
        SeismicConfig {
            summary_energy: f32::NAN.to_bits(),
            ..SeismicConfig::default()
        },
        SeismicConfig {
            summary_energy: 0.0f32.to_bits(),
            ..SeismicConfig::default()
        },
    ] {
        assert!(config.validate().is_err());
    }
}

#[test]
fn builders_clamp_fractions_and_round_block_sizes() {
    let config = SparseVectorConfig::full_precision()
        .with_pruning(2.5f32.to_bits())
        .with_doc_mass((-1.0f32).to_bits())
        .with_weight_threshold(0.25f32.to_bits())
        .with_block_size(100)
        .with_query_config(SparseQueryConfig::default());
    assert_eq!(config.pruning, Some(1.0f32.to_bits()));
    assert_eq!(config.doc_mass, Some(0.0f32.to_bits()));
    assert_eq!(config.weight_threshold, 0.25f32.to_bits());
    assert_eq!(config.block_size, 128);
    let query = config.query_config.unwrap();
    assert_eq!(query.weighting, QueryWeighting::One);
    assert_eq!(f32::from_bits(query.seismic_factor), 0.85);
    assert_eq!(f32::from_bits(SeismicConfig::default().summary_energy), 0.4);
    assert_eq!(SparseVectorConfig::default().with_block_size(0).block_size, 1);
    assert_eq!(SparseVectorConfig::default().with_block_size(129).block_size, 256);
}

#[test]
fn presets_hold_the_documented_fractions() {
    let compact = SparseVectorConfig::compact();
    assert_eq!(f32::from_bits(compact.weight_threshold), 0.02);
    assert_eq!(compact.pruning.map(f32::from_bits), Some(0.15));
    let query = compact.query_config.unwrap();
    assert_eq!(f32::from_bits(query.heap_factor), 0.7);
    assert_eq!(query.max_query_dims, Some(15));
    let conservative = SparseVectorConfig::conservative();
    let query = conservative.query_config.unwrap();
    assert_eq!(f32::from_bits(query.heap_factor), 0.9);
    assert_eq!(query.max_query_dims, Some(50));
    assert_eq!(
        SparseVectorConfig::splade_bmp().max_weight.map(f32::from_bits),
        Some(5.0)
    );
}

#[test]
fn each_seismic_bound_has_its_own_refusal() {
    let base = SeismicConfig::default();
    assert_eq!(
        SeismicConfig { postings: 0, ..base }.validate(),
        Err(SeismicError::Postings)
    );
    assert_eq!(
        SeismicConfig { cluster_size: 4097, ..base }.validate(),
        Err(SeismicError::ClusterSize)
    );
    assert_eq!(
        SeismicConfig { summary_energy: 1.5f32.to_bits(), ..base }.validate(),
        Err(SeismicError::SummaryEnergy)
    );
    assert_eq!(SparseVectorConfig::splade().to_byte(), 0x02);
    for byte in [0x04, 0x20, 0x54, 0x80] {
        assert!(SparseVectorConfig::from_byte(byte).is_none());
    }
}

#[test]
fn seismic_forward_compression_defaults_on_and_preserves_explicit_opt_out() {
    assert!(SeismicConfig::default().forward_compression);
    let omitted_field = SparseVectorConfig::from_byte(0x50).unwrap();
    assert_eq!(omitted_field.format, SparseFormat::Seismic);
    assert!(omitted_field.seismic.forward_compression);
    let disabled = SeismicConfig {
        forward_compression: false,
        ..SeismicConfig::default()
    };
    assert!(!disabled.forward_compression);
    let config = SparseVectorConfig {
        seismic: disabled,
        ..SparseVectorConfig::default()
    };
    assert_eq!(config.with_block_size(64).seismic, disabled);
}
