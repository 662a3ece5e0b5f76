//! How sparse vectors are stored and queried. Fractions and weights are held
//! as the bits of single-precision numbers.
use vstd::prelude::*;

verus! {

/// The bits of 1.0.
pub const ONE: u32 = 0x3F80_0000;

/// The bits of infinity; larger magnitudes are not numbers.
pub const INFINITY: u32 = 0x7F80_0000;

/// The sign bit; alone, the bits of -0.0.
pub const SIGN: u32 = 0x8000_0000;

/// The layout of a sparse index.
#[derive(Debug, Clone, Copy, PartialEq, Eq, Structural)]
pub enum SparseFormat {
    /// Blocks of varying size for each dimension.
    MaxScore,
    /// Blocks over fixed ranges of documents.
    Bmp,
    /// Summaries that nominate candidates.
    Seismic,
}

impl Default for SparseFormat {
    fn default() -> (r: Self)
        ensures
            r == SparseFormat::Bmp,
    {
        SparseFormat::Bmp
    }
}

/// The size of a dimension number.
#[derive(Debug, Clone, Copy, PartialEq, Eq, Structural)]
pub enum IndexSize {
    U16,
    U32,
}

impl Default for IndexSize {
    fn default() -> (r: Self)
        ensures
            r == IndexSize::U32,
    {
        IndexSize::U32
    }
}

impl IndexSize {
    /// The number that stands for the size.
    pub open spec fn code(self) -> u8 {
        match self {
            IndexSize::U16 => 0,
            IndexSize::U32 => 1,
        }
    }

    /// Bytes of a dimension number.
    pub fn bytes(&self) -> (r: usize)
        ensures
            r == (if self is U16 {
                2int
            } else {
                4
            }),
    {
        match self {
            IndexSize::U16 => 2,
            IndexSize::U32 => 4,
        }
    }

    /// The largest dimension number.
    pub fn max_value(&self) -> (r: u32)
        ensures
            r == (if self is U16 {
                0xFFFFu32
            } else {
                u32::MAX
            }),
    {
        match self {
            IndexSize::U16 => 0xFFFF,
            IndexSize::U32 => u32::MAX,
        }
    }

    /// The number that stands for the size.
    pub fn to_u8(self) -> (r: u8)
        ensures
            r == self.code(),
    {
        match self {
            IndexSize::U16 => 0,
            IndexSize::U32 => 1,
        }
    }

    /// The size that a number stands for.
    pub fn from_u8(v: u8) -> (r: Option<Self>)
        ensures
            r is Some <==> v <= 1,
            r matches Some(size) ==> size.code() == v,
    {
        match v {
            0 => Some(IndexSize::U16),
            1 => Some(IndexSize::U32),
            _ => None,
        }
    }
}

/// How weights are stored.
#[derive(Debug, Clone, Copy, PartialEq, Eq, Structural)]
pub enum WeightQuantization {
    Float32,
    Float16,
    /// Codes of eight bits with a scale and an offset.
    UInt8,
    /// Codes of four bits, two a byte, with a scale and an offset.
    UInt4,
}

impl Default for WeightQuantization {
    fn default() -> (r: Self)
        ensures
            r == WeightQuantization::Float32,
    {
        WeightQuantization::Float32
    }
}

impl WeightQuantization {
    /// The number that stands for the precision.
    pub open spec fn code(self) -> u8 {
        match self {
            WeightQuantization::Float32 => 0,
            WeightQuantization::Float16 => 1,
            WeightQuantization::UInt8 => 2,
            WeightQuantization::UInt4 => 3,
        }
    }

    /// Half bytes of a weight.
    pub open spec fn nibbles(self) -> int {
        match self {
            WeightQuantization::Float32 => 8,
            WeightQuantization::Float16 => 4,
            WeightQuantization::UInt8 => 2,
            WeightQuantization::UInt4 => 1,
        }
    }

    /// Half bytes of a weight.
    pub fn half_bytes_per_weight(&self) -> (r: u32)
        ensures
            r == self.nibbles(),
    {
        match self {
            WeightQuantization::Float32 => 8,
            WeightQuantization::Float16 => 4,
            WeightQuantization::UInt8 => 2,
            WeightQuantization::UInt4 => 1,
        }
    }


    /// The number that stands for the precision.
    pub fn to_u8(self) -> (r: u8)
        ensures
            r == self.code(),
    {
        match self {
            WeightQuantization::Float32 => 0,
            WeightQuantization::Float16 => 1,
            WeightQuantization::UInt8 => 2,
            WeightQuantization::UInt4 => 3,
        }
    }

    /// The precision that a number stands for.
    pub fn from_u8(v: u8) -> (r: Option<Self>)
        ensures
            r is Some <==> v <= 3,
            r matches Some(quant) ==> quant.code() == v,
    {
        match v {
            0 => Some(WeightQuantization::Float32),
            1 => Some(WeightQuantization::Float16),
            2 => Some(WeightQuantization::UInt8),
            3 => Some(WeightQuantization::UInt4),
            _ => None,
        }
    }
}

/// How the terms of a query are weighted.
#[derive(Debug, Clone, Copy, PartialEq, Eq, Structural)]
pub enum QueryWeighting {
    /// Every term counts one.
    One,
    /// By how rare the term is in the index.
    Idf,
    /// By a table that comes with the model.
    IdfFile,
}

impl Default for QueryWeighting {
    fn default() -> (r: Self)
        ensures
            r == QueryWeighting::One,
    {
        QueryWeighting::One
    }
}

/// How a query is run.
#[derive(Debug, Clone, PartialEq, Eq)]
pub struct SparseQueryConfig {
    pub tokenizer: Option<String>,
    pub weighting: QueryWeighting,
    pub heap_factor: u32,
    pub weight_threshold: u32,
    pub max_query_dims: Option<usize>,
    pub pruning: Option<u32>,
    pub min_query_dims: usize,
    pub lsp_gamma: Option<usize>,
    pub seismic_cut: usize,
    pub seismic_factor: u32,
    pub exhaustive: bool,
}

/// A query that keeps every dimension and skips nothing that could score.
pub open spec fn exact_query(q: SparseQueryConfig) -> bool {
    &&& q.tokenizer is None
    &&& q.weighting == QueryWeighting::One
    &&& q.heap_factor == ONE
    &&& q.weight_threshold == 0
    &&& q.max_query_dims is None
    &&& q.pruning is None
    &&& q.min_query_dims == 4
    &&& q.lsp_gamma is None
    &&& q.seismic_cut == 10
    &&& q.seismic_factor == 0x3F59_999A
    &&& !q.exhaustive
}

impl Default for SparseQueryConfig {
    fn default() -> (r: Self)
        ensures
            exact_query(r),
    {
        SparseQueryConfig {
            tokenizer: None,
            weighting: QueryWeighting::One,
            heap_factor: ONE,
            weight_threshold: 0,
            max_query_dims: None,
            pruning: None,
            min_query_dims: 4,
            lsp_gamma: None,
            seismic_cut: 10,
            seismic_factor: 0x3F59_999A,
            exhaustive: false,
        }
    }
}

/// Why a Seismic configuration is refused.
#[derive(Debug, Clone, Copy, PartialEq, Eq, Structural)]
pub enum SeismicError {
    Postings,
    ClusterSize,
    SummaryEnergy,
}

/// The bounds of a Seismic build.
#[derive(Debug, Clone, Copy, PartialEq, Eq, Structural)]
pub struct SeismicConfig {
    pub postings: usize,
    pub cluster_size: usize,
    pub summary_energy: u32,
    pub forward_compression: bool,
}

/// The Seismic configuration that is used if none is given.
pub open spec fn default_seismic() -> SeismicConfig {
    SeismicConfig {
        postings: 4096,
        cluster_size: 64,
        summary_energy: 0x3ECC_CCCD,
        forward_compression: true,
    }
}

impl Default for SeismicConfig {
    fn default() -> (r: Self)
        ensures
            r == default_seismic(),
            r.refusal() is None,
    {
        SeismicConfig {
            postings: 4096,
            cluster_size: 64,
            summary_energy: 0x3ECC_CCCD,
            forward_compression: true,
        }
    }
}

impl SeismicConfig {
    /// What is wrong with a configuration: the postings go from one to
    /// 65536, a cluster holds from one to all of them, and the energy is
    /// above zero and at most one.
    pub open spec fn refusal(self) -> Option<SeismicError> {
        if !(1 <= self.postings <= 65536) {
            Some(SeismicError::Postings)
        } else if !(1 <= self.cluster_size <= self.postings) {
            Some(SeismicError::ClusterSize)
        } else if !(0 < self.summary_energy <= ONE) {
            Some(SeismicError::SummaryEnergy)
        } else {
            None
        }
    }

    /// Whether the configuration can be built.
    pub fn validate(&self) -> (r: Result<(), SeismicError>)
        ensures
            match r {
                Ok(()) => self.refusal() is None,
                Err(e) => self.refusal() == Some(e),
            },
    {
        if self.postings == 0 || self.postings > 65536 {
            return Err(SeismicError::Postings);
        }
        if self.cluster_size == 0 || self.cluster_size > self.postings {
            return Err(SeismicError::ClusterSize);
        }
        if self.summary_energy == 0 || self.summary_energy > ONE {
            return Err(SeismicError::SummaryEnergy);
        }
        Ok(())
    }
}

/// How the sparse vectors of a field are stored.
#[derive(Debug, Clone, PartialEq, Eq)]
pub struct SparseVectorConfig {
    pub format: SparseFormat,
    pub seismic: SeismicConfig,
    pub index_size: IndexSize,
    pub weight_quantization: WeightQuantization,
    pub weight_threshold: u32,
    pub doc_mass: Option<u32>,
    pub block_size: usize,
    pub bmp_block_size: u32,
    pub bmp_grid_bits: u8,
    pub bmp_forward_index: bool,
    pub pruning: Option<u32>,
    pub query_config: Option<SparseQueryConfig>,
    pub dims: Option<u32>,
    pub max_weight: Option<u32>,
    pub min_terms: usize,
}

/// A configuration that drops nothing and has no query configuration.
pub open spec fn plain(
    c: SparseVectorConfig,
    format: SparseFormat,
    size: IndexSize,
    quant: WeightQuantization,
) -> bool {
    &&& c.format == format
    &&& c.index_size == size
    &&& c.weight_quantization == quant
    &&& c.weight_threshold == 0
    &&& c.pruning is None
    &&& c.query_config is None
    &&& c.dims is None
    &&& c.max_weight is None
    &&& usual(c)
}

/// What every ready-made configuration has in common.
pub open spec fn usual(c: SparseVectorConfig) -> bool {
    &&& c.seismic == default_seismic()
    &&& c.doc_mass is None
    &&& c.block_size == 128
    &&& c.bmp_block_size == 32
    &&& c.bmp_grid_bits == 4
    &&& c.bmp_forward_index
    &&& c.min_terms == 4
}

/// A query that differs from an exact one in what it drops.
pub open spec fn trimmed_query(
    q: SparseQueryConfig,
    heap_factor: u32,
    threshold: u32,
    dims: Option<usize>,
    pruning: Option<u32>,
) -> bool {
    &&& q.heap_factor == heap_factor
    &&& q.weight_threshold == threshold
    &&& q.max_query_dims == dims
    &&& q.pruning == pruning
    &&& exact_query(
        SparseQueryConfig {
            heap_factor: ONE,
            weight_threshold: 0,
            max_query_dims: None,
            pruning: None,
            ..q
        },
    )
}

/// A configuration with a query configuration of its own.
pub open spec fn tuned(
    c: SparseVectorConfig,
    format: SparseFormat,
    size: IndexSize,
    quant: WeightQuantization,
    threshold: u32,
    pruning: Option<u32>,
) -> bool {
    &&& c.format == format
    &&& c.index_size == size
    &&& c.weight_quantization == quant
    &&& c.weight_threshold == threshold
    &&& c.pruning == pruning
    &&& usual(c)
}

/// A number kept between zero and one. What is not a number stays, and so
/// does -0.0.
pub open spec fn clamped(bits: u32) -> u32 {
    if bits % SIGN > INFINITY || bits == SIGN {
        bits
    } else if bits > SIGN {
        0
    } else if bits > ONE {
        ONE
    } else {
        bits
    }
}

fn clamp_unit(bits: u32) -> (r: u32)
    ensures
        r == clamped(bits),
{
    if bits % SIGN > INFINITY || bits == SIGN {
        bits
    } else if bits > SIGN {
        0
    } else if bits > ONE {
        ONE
    } else {
        bits
    }
}

/// Whether a number is a power of two.
pub open spec fn power_of_two(n: int) -> bool
    decreases n,
{
    n == 1 || (n > 1 && n % 2 == 0 && power_of_two(n / 2))
}

/// The smallest power of two that is not below `n`.
fn next_power(n: usize) -> (r: usize)
    requires
        n <= usize::MAX / 2 + 1,
    ensures
        power_of_two(r as int),
        n <= r,
        r == 1 || r / 2 < n,
{
    let mut p: usize = 1;
    while p < n
        invariant
            n <= usize::MAX / 2 + 1,
            p >= 1,
            power_of_two(p as int),
            p == 1 || p / 2 < n,
        decreases 2 * n - p,
    {
        proof {
            half_of_max(p as int, n as int);
        }
        p = p * 2;
    }
    p
}

proof fn half_of_max(p: int, n: int)
    requires
        1 <= p < n <= usize::MAX / 2 + 1,
    ensures
        2 * p <= usize::MAX,
        (2 * p) / 2 == p,
        (2 * p) % 2 == 0,
{
}

impl SparseVectorConfig {
    /// Documents of a block of the fixed-range layout.
    pub const DEFAULT_BMP_BLOCK_SIZE: u32 = 32;

    /// Bits of a cell of its grid.
    pub const DEFAULT_BMP_GRID_BITS: u8 = 4;

    fn storing(format: SparseFormat, index_size: IndexSize, quant: WeightQuantization) -> (r: Self)
        ensures
            plain(r, format, index_size, quant),
    {
        SparseVectorConfig {
            format,
            seismic: SeismicConfig::default(),
            index_size,
            weight_quantization: quant,
            weight_threshold: 0,
            doc_mass: None,
            block_size: 128,
            bmp_block_size: 32,
            bmp_grid_bits: 4,
            bmp_forward_index: true,
            pruning: None,
            query_config: None,
            dims: None,
            max_weight: None,
            min_terms: 4,
        }
    }

    fn querying(threshold: u32) -> (r: SparseQueryConfig)
        ensures
            trimmed_query(r, ONE, threshold, None, None),
    {
        SparseQueryConfig {
            tokenizer: None,
            weighting: QueryWeighting::One,
            heap_factor: ONE,
            weight_threshold: threshold,
            max_query_dims: None,
            pruning: None,
            min_query_dims: 4,
            lsp_gamma: None,
            seismic_cut: 10,
            seismic_factor: 0x3F59_999A,
            exhaustive: false,
        }
    }

    /// For models with a vocabulary of sixteen bits.
    pub fn splade() -> (r: Self)
        ensures
            tuned(
                r,
                SparseFormat::MaxScore,
                IndexSize::U16,
                WeightQuantization::UInt8,
                0x3C23_D70A,
                None,
            ),
            r.dims is None,
            r.max_weight is None,
            r.query_config matches Some(q) && trimmed_query(q, ONE, 0x3C23_D70A, None, None),
    {
        let mut c = Self::storing(
            SparseFormat::MaxScore,
            IndexSize::U16,
            WeightQuantization::UInt8,
        );
        c.weight_threshold = 0x3C23_D70A;
        c.query_config = Some(Self::querying(0x3C23_D70A));
        c
    }

    /// The same in the fixed-range layout, with the size of the vocabulary
    /// and the largest weight known.
    pub fn splade_bmp() -> (r: Self)
        ensures
            tuned(
                r,
                SparseFormat::Bmp,
                IndexSize::U16,
                WeightQuantization::UInt8,
                0x3C23_D70A,
                None,
            ),
            r.dims == Some(105879u32),
            r.max_weight == Some(0x40A0_0000u32),
            r.query_config matches Some(q) && trimmed_query(q, ONE, 0x3C23_D70A, None, None),
    {
        let mut c = Self::splade();
        c.format = SparseFormat::Bmp;
        c.dims = Some(105879);
        c.max_weight = Some(0x40A0_0000);
        c
    }

    /// As small as can be.
    pub fn compact() -> (r: Self)
        ensures
            tuned(
                r,
                SparseFormat::MaxScore,
                IndexSize::U16,
                WeightQuantization::UInt4,
                0x3CA3_D70A,
                Some(0x3E19_999A),
            ),
            r.dims is None,
            r.max_weight is None,
            r.query_config matches Some(q) && trimmed_query(
                q,
                0x3F33_3333,
                0x3CA3_D70A,
                Some(15),
                Some(0x3E19_999A),
            ),
    {
        let mut c = Self::storing(
            SparseFormat::MaxScore,
            IndexSize::U16,
            WeightQuantization::UInt4,
        );
        c.weight_threshold = 0x3CA3_D70A;
        c.pruning = Some(0x3E19_999A);
        let mut q = Self::querying(0x3CA3_D70A);
        q.heap_factor = 0x3F33_3333;
        q.max_query_dims = Some(15);
        q.pruning = Some(0x3E19_999A);
        c.query_config = Some(q);
        c
    }

    /// With every weight as it is.
    pub fn full_precision() -> (r: Self)
        ensures
            plain(r, SparseFormat::MaxScore, IndexSize::U32, WeightQuantization::Float32),
    {
        Self::storing(SparseFormat::MaxScore, IndexSize::U32, WeightQuantization::Float32)
    }

    /// With little dropped.
    pub fn conservative() -> (r: Self)
        ensures
            tuned(
                r,
                SparseFormat::MaxScore,
                IndexSize::U32,
                WeightQuantization::Float16,
                0x3BA3_D70A,
                None,
            ),
            r.dims is None,
            r.max_weight is None,
            r.query_config matches Some(q) && trimmed_query(
                q,
                0x3F66_6666,
                0x3BA3_D70A,
                Some(50),
                None,
            ),
    {
        let mut c = Self::storing(
            SparseFormat::MaxScore,
            IndexSize::U32,
            WeightQuantization::Float16,
        );
        c.weight_threshold = 0x3BA3_D70A;
        let mut q = Self::querying(0x3BA3_D70A);
        q.heap_factor = 0x3F66_6666;
        q.max_query_dims = Some(50);
        c.query_config = Some(q);
        c
    }

    /// With another weight threshold.
    pub fn with_weight_threshold(self, threshold: u32) -> (r: Self)
        ensures
            r == (SparseVectorConfig { weight_threshold: threshold, ..self }),
    {
        let mut c = self;
        c.weight_threshold = threshold;
        c
    }

    /// With another share of a vector's weight kept.
    pub fn with_doc_mass(self, fraction: u32) -> (r: Self)
        ensures
            r == (SparseVectorConfig { doc_mass: Some(clamped(fraction)), ..self }),
    {
        let mut c = self;
        c.doc_mass = Some(clamp_unit(fraction));
        c
    }

    /// With another share of each list kept.
    pub fn with_pruning(self, fraction: u32) -> (r: Self)
        ensures
            r == (SparseVectorConfig { pruning: Some(clamped(fraction)), ..self }),
    {
        let mut c = self;
        c.pruning = Some(clamp_unit(fraction));
        c
    }

    /// With another block size: the next power of two.
    pub fn with_block_size(self, size: usize) -> (r: Self)
        requires
            size <= usize::MAX / 2 + 1,
        ensures
            r == (SparseVectorConfig { block_size: r.block_size, ..self }),
            power_of_two(r.block_size as int),
            size <= r.block_size,
            r.block_size == 1 || r.block_size / 2 < size,
    {
        let mut c = self;
        c.block_size = next_power(size);
        c
    }

    /// With a query configuration.
    pub fn with_query_config(self, config: SparseQueryConfig) -> (r: Self)
        ensures
            r == (SparseVectorConfig { query_config: Some(config), ..self }),
    {
        let mut c = self;
        c.query_config = Some(config);
        c
    }

    /// Half bytes of an entry: its dimension and its weight.
    pub fn half_bytes_per_entry(&self) -> (r: u32)
        ensures
            r == self.weight_quantization.nibbles() + (if self.format is Seismic
                || self.index_size is U32 {
                8int
            } else {
                4
            }),
    {
        let dimension: u32 = if self.format == SparseFormat::Seismic {
            4
        } else {
            self.index_size.bytes() as u32
        };
        2 * dimension + self.weight_quantization.half_bytes_per_weight()
    }

    /// What identifies the layout: the precision in the low bits, the
    /// fixed-range layout in bit 3, the size of a dimension above it.
    /// Seismic always has wide dimensions and bit 6 set.
    pub open spec fn layout_byte(self) -> u8 {
        (self.weight_quantization.code() + match self.format {
            SparseFormat::Seismic => 0x50int,
            SparseFormat::Bmp => 0x08 + 0x10 * self.index_size.code(),
            SparseFormat::MaxScore => 0x10 * self.index_size.code(),
        }) as u8
    }

    /// The byte that identifies the layout.
    pub fn to_byte(&self) -> (r: u8)
        ensures
            r == self.layout_byte(),
    {
        let quant: u8 = self.weight_quantization.to_u8();
        match self.format {
            SparseFormat::Seismic => 0x50 + quant,
            SparseFormat::Bmp => 0x10 * self.index_size.to_u8() + 0x08 + quant,
            SparseFormat::MaxScore => 0x10 * self.index_size.to_u8() + quant,
        }
    }

    /// The configuration of the layout that a byte identifies.
    pub fn from_byte(b: u8) -> (r: Option<Self>)
        ensures
            r is Some <==> layout_known(b),
            r matches Some(c) ==> c.layout_byte() == b && plain(
                c,
                c.format,
                c.index_size,
                c.weight_quantization,
            ) && (c.format is Seismic ==> c.index_size is U32),
    {
        if b >= 0x50 && b < 0x54 {
            let quant = WeightQuantization::from_u8(b % 4)?;
            return Some(Self::storing(SparseFormat::Seismic, IndexSize::U32, quant));
        }
        if b >= 0x40 {
            return None;
        }
        let index_size = IndexSize::from_u8(b / 16)?;
        let format = if b / 8 % 2 == 1 {
            SparseFormat::Bmp
        } else {
            SparseFormat::MaxScore
        };
        let quant = WeightQuantization::from_u8(b % 8)?;
        Some(Self::storing(format, index_size, quant))
    }
}

/// Whether a byte identifies a layout.
pub open spec fn layout_known(b: u8) -> bool {
    0x50 <= b < 0x54 || (b < 0x20 && b % 8 < 4)
}

impl Default for SparseVectorConfig {
    fn default() -> (r: Self)
        ensures
            plain(r, SparseFormat::Bmp, IndexSize::U32, WeightQuantization::Float32),
    {
        Self::storing(SparseFormat::Bmp, IndexSize::U32, WeightQuantization::Float32)
    }
}

/// A layout byte is known, and no other layout has it. Seismic has one size
/// of dimensions only.
pub proof fn layout_byte_roundtrip(c: SparseVectorConfig, d: SparseVectorConfig)
    ensures
        layout_known(c.layout_byte()),
        c.layout_byte() == d.layout_byte() ==> {
            &&& c.format == d.format
            &&& c.weight_quantization == d.weight_quantization
            &&& c.format is Seismic || c.index_size == d.index_size
        },
{
}

} // verus!
