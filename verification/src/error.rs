//! Why bytes or arguments were refused.
use vstd::prelude::*;

verus! {

/// A refusal by a posting-list reader, writer or merge.
#[derive(Debug, Clone, Copy, PartialEq, Eq, Structural)]
pub enum PostingError {
    /// A block header names a document width above 32 bits: this one.
    DocWidth(u8),
    /// A frequency width above 32 bits.
    Width,
    /// A rounded block with a width other than 0, 8, 16 or 32.
    RoundedWidth,
    /// A patched array without its exception count.
    BlockTruncated,
    /// A packed array longer than the block.
    PayloadTruncated,
    /// More exceptions than values, or exceptions at full width.
    ExceptionCount,
    /// An exception out of order, out of range or without high bits.
    Exception,
    /// A block shorter than its header.
    HeaderTruncated,
    /// A block header that disagrees with its directory entry.
    HeaderMismatch,
    /// The reserved first gap of a four-lane block is not zero.
    FirstGap,
    /// A block with bytes after its arrays.
    PayloadLength,
    /// A compact descriptor with an impossible count or range.
    CompactRange,
    /// A compact descriptor with an impossible codec or width.
    CompactCodec,
    /// A compact descriptor that disagrees with its payload length.
    CompactLength,
    /// Decoded documents that leave the range of their directory entry, whose
    /// first and last document these are.
    DocsLeaveRange(u32, u32),
    /// Fewer bytes than a footer.
    TooShort,
    /// A stream that the address space cannot hold.
    StreamAddress,
    /// Footer flags this version does not know.
    UnknownFlags,
    /// Short cursors without cursors, or with too many positions.
    ShortCursors,
    /// Group envelopes without block envelopes and group bounds.
    GroupImpacts,
    /// Sections that do not end where the footer starts.
    Sections,
    /// Block, group and document counts that contradict each other.
    Counts,
    /// Directory entries out of order or out of the stream.
    Directory,
    /// A group entry that disagrees with the blocks of its group.
    GroupDirectory,
    /// Position cursors that run backwards or past the total.
    Cursor,
    /// Block counts that do not add up to the document count.
    CountMismatch,
    /// A ratio bound that is negative or not finite.
    RatioBound,
    /// An impact directory that the address space cannot hold.
    ImpactOverflow,
    /// An impact section shorter than its directory.
    ImpactTruncated,
    /// Impact record offsets out of order.
    ImpactOffset,
    /// Impact bytes after the last record.
    ImpactTrailing,
    /// An impact record of impossible size or point count.
    ImpactExtent,
    /// An impact coordinate that is cut off or too long.
    ImpactCoordinate,
    /// An impact frequency above 32 bits.
    ImpactFrequency,
    /// An impact length above 32 bits.
    ImpactLength,
    /// Impact records of blocks and groups that cannot be counted.
    ImpactGroupCount,
    /// An impact coordinate that is zero.
    ImpactZero,
    /// Impact points out of order.
    ImpactOrder,
    /// Impact points that are not convex.
    ImpactConvex,
    /// Impact record bytes after the last point.
    ImpactRecordTrailing,
    /// More impact records than the builder was made for.
    ImpactBudget,
    /// Impact records that outgrow 32-bit offsets.
    ImpactPayload,
    /// More impact points than a block has postings.
    ImpactPoints,
    /// Group envelopes before all block envelopes are there.
    ImpactGroups,
    /// Envelopes asked for without scoring lengths.
    ImpactLengths,
    /// A block stream that outgrows 32-bit offsets.
    StreamTooLong,
    /// A merged block stream that outgrows 32-bit offsets.
    MergedTooLong,
    /// A block stream that outgrows 32-bit offsets as stored lists are merged.
    StreamedTooLong,
    /// A document number that overflows when it is rebased.
    RemapOverflow,
    /// Rebased documents that overlap or reach the sentinel.
    RemapOrder,
    /// A merged document count that overflows.
    MergedCount,
    /// A merged position count that overflows.
    MergedPositions,
    /// A merge of lists with and without position cursors.
    MixedCursors,
    /// Compact headers asked for after output has begun, or for patched
    /// blocks.
    CompactHeaders,
    /// A block that the output cannot take: not alone, in another layout, with
    /// or without positions unlike the others, or one too many.
    AppendBlock,
    /// A block whose documents overflow where they are moved to.
    AppendAddress,
    /// A block out of order, or a stream that outgrows 32-bit offsets.
    AppendOrder,
    /// A posting count that overflows.
    AppendCount,
    /// A position count that overflows.
    AppendPositions,
    /// A posting block longer than any encoding.
    BlockExtent,
    /// A directory that needs more memory to be read than was granted.
    SourceBudget,
    /// A directory that needs more memory to be written than was granted.
    OutputBudget,
    /// Envelopes that need more memory than was granted.
    ImpactMemory,
    /// Ratio bounds that need more memory than was granted.
    RatioMemory,
    /// A read of a footer that gave another length than asked for.
    FooterRead,
    /// A read of a directory that gave another length than asked for.
    DirectoryRead,
    /// A read of a block that gave another length than asked for.
    BlockRead,
    /// Counts of a directory that contradict each other.
    SourceCounts,
    /// Entries of a directory out of order or out of the stream.
    SourceDirectory,
    /// Position cursors of a directory that run backwards or past the total.
    SourceCursors,
    /// The caller cancelled the work.
    Cancelled,
}

/// Why stored bytes could not be read.
#[derive(Debug, Clone, Copy, PartialEq, Eq, Structural)]
pub enum ReadError {
    /// The bytes end too early.
    Truncated,
    /// A container tag that says nothing known.
    ContainerType,
    /// A tag that is of no list format: this one.
    UnknownFormat(u8),
}

impl PostingError {
    /// The refusal in words.
    pub open spec fn text(self) -> Seq<char> {
        match self {
            PostingError::DocWidth(_) => "posting block doc-id width exceeds 32 bits"@,
            PostingError::Width => "invalid posting width"@,
            PostingError::RoundedWidth => "invalid rounded posting width"@,
            PostingError::BlockTruncated => "posting block truncated"@,
            PostingError::PayloadTruncated => "truncated posting payload"@,
            PostingError::ExceptionCount => "invalid posting exception count"@,
            PostingError::Exception => "invalid posting exception"@,
            PostingError::HeaderTruncated => "truncated posting block"@,
            PostingError::HeaderMismatch => "posting block header disagrees with directory"@,
            PostingError::FirstGap => "SIMD posting first gap must be zero"@,
            PostingError::PayloadLength => "invalid posting payload length"@,
            PostingError::CompactRange => "invalid compact posting count or range"@,
            PostingError::CompactCodec => "invalid compact posting codec"@,
            PostingError::CompactLength =>
                "compact posting payload length disagrees with descriptor"@,
            PostingError::DocsLeaveRange(_, _) =>
                "decoded doc ids leave the directory range"@,
            PostingError::TooShort => "posting data too short"@,
            PostingError::StreamAddress => "posting stream exceeds address space"@,
            PostingError::UnknownFlags => "unknown posting footer flags"@,
            PostingError::ShortCursors => "invalid short position cursors"@,
            PostingError::GroupImpacts => "group impacts require L0 impacts and L1 bounds"@,
            PostingError::Sections => "posting list sections do not match the footer offset"@,
            PostingError::Counts => "invalid posting list counts"@,
            PostingError::Directory => "invalid posting directory"@,
            PostingError::GroupDirectory => "posting L1 directory disagrees with L0"@,
            PostingError::Cursor => "invalid posting position cursor"@,
            PostingError::CountMismatch => "posting block counts disagree with footer"@,
            PostingError::RatioBound => "invalid posting ratio bound"@,
            PostingError::ImpactOverflow => "impact directory overflow"@,
            PostingError::ImpactTruncated => "truncated impact directory"@,
            PostingError::ImpactOffset => "invalid impact record offset"@,
            PostingError::ImpactTrailing => "unaddressed impact payload bytes"@,
            PostingError::ImpactExtent => "invalid impact point count or record extent"@,
            PostingError::ImpactCoordinate => "invalid impact coordinate"@,
            PostingError::ImpactFrequency => "impact frequency exceeds u32"@,
            PostingError::ImpactLength => "impact length exceeds u32"@,
            PostingError::ImpactGroupCount => "impact group count overflow"@,
            PostingError::ImpactZero => "impact coordinates must be positive"@,
            PostingError::ImpactOrder => "impact points are not strictly ordered"@,
            PostingError::ImpactConvex => "impact envelope is not convex"@,
            PostingError::ImpactRecordTrailing => "unaddressed impact record bytes"@,
            PostingError::ImpactBudget => "impact output exceeds admitted block budget"@,
            PostingError::ImpactPayload => "impact payload exceeds u32 offsets"@,
            PostingError::ImpactPoints => "impact construction exceeds posting block size"@,
            PostingError::ImpactGroups => "impact groups require complete L0 output"@,
            PostingError::ImpactLengths => "impact bounds require scoring lengths"@,
            PostingError::StreamTooLong => "posting list stream exceeds u32::MAX bytes"@,
            PostingError::MergedTooLong =>
                "posting list stream exceeds u32::MAX bytes during concatenation"@,
            PostingError::StreamedTooLong =>
                "posting list stream exceeds u32::MAX bytes during streaming merge"@,
            PostingError::RemapOverflow => "posting document remapping overflow"@,
            PostingError::RemapOrder => "invalid remapped posting document order"@,
            PostingError::MergedCount => "merged posting count overflow"@,
            PostingError::MergedPositions => "merged position cursor overflow"@,
            PostingError::MixedCursors =>
                "cannot concatenate posting lists with and without position cursors"@,
            PostingError::CompactHeaders =>
                "select compact headers before appending fixed-width blocks"@,
            PostingError::AppendBlock => "invalid streaming posting block admission"@,
            PostingError::AppendAddress => "posting address overflow"@,
            PostingError::AppendOrder => "invalid streaming posting order or size"@,
            PostingError::AppendCount => "posting count overflow"@,
            PostingError::AppendPositions => "position count overflow"@,
            PostingError::BlockExtent => "posting block exceeds encoded block bound"@,
            PostingError::SourceBudget =>
                "posting directory exceeds compaction scratch budget"@,
            PostingError::OutputBudget =>
                "posting output directory exceeds compaction scratch budget"@,
            PostingError::ImpactMemory =>
                "posting impact directory exceeds compaction scratch budget"@,
            PostingError::RatioMemory =>
                "posting ratio directory exceeds compaction scratch budget"@,
            PostingError::FooterRead =>
                "posting footer read returned an incorrect byte count"@,
            PostingError::DirectoryRead =>
                "posting directory read returned an incorrect byte count"@,
            PostingError::BlockRead => "posting block read returned an incorrect byte count"@,
            PostingError::SourceCounts => "invalid posting source counts"@,
            PostingError::SourceDirectory => "invalid compacted source posting directory"@,
            PostingError::SourceCursors => "invalid source posting position cursors"@,
            PostingError::Cancelled => "posting compaction cancelled"@,
        }
    }

    /// The refusal in words.
    pub fn message(&self) -> (r: &'static str)
        ensures
            r@ == self.text(),
    {
        match self {
            PostingError::DocWidth(_) => "posting block doc-id width exceeds 32 bits",
            PostingError::Width => "invalid posting width",
            PostingError::RoundedWidth => "invalid rounded posting width",
            PostingError::BlockTruncated => "posting block truncated",
            PostingError::PayloadTruncated => "truncated posting payload",
            PostingError::ExceptionCount => "invalid posting exception count",
            PostingError::Exception => "invalid posting exception",
            PostingError::HeaderTruncated => "truncated posting block",
            PostingError::HeaderMismatch => "posting block header disagrees with directory",
            PostingError::FirstGap => "SIMD posting first gap must be zero",
            PostingError::PayloadLength => "invalid posting payload length",
            PostingError::CompactRange => "invalid compact posting count or range",
            PostingError::CompactCodec => "invalid compact posting codec",
            PostingError::CompactLength =>
                "compact posting payload length disagrees with descriptor",
            PostingError::DocsLeaveRange(_, _) =>
                "decoded doc ids leave the directory range",
            PostingError::TooShort => "posting data too short",
            PostingError::StreamAddress => "posting stream exceeds address space",
            PostingError::UnknownFlags => "unknown posting footer flags",
            PostingError::ShortCursors => "invalid short position cursors",
            PostingError::GroupImpacts => "group impacts require L0 impacts and L1 bounds",
            PostingError::Sections => "posting list sections do not match the footer offset",
            PostingError::Counts => "invalid posting list counts",
            PostingError::Directory => "invalid posting directory",
            PostingError::GroupDirectory => "posting L1 directory disagrees with L0",
            PostingError::Cursor => "invalid posting position cursor",
            PostingError::CountMismatch => "posting block counts disagree with footer",
            PostingError::RatioBound => "invalid posting ratio bound",
            PostingError::ImpactOverflow => "impact directory overflow",
            PostingError::ImpactTruncated => "truncated impact directory",
            PostingError::ImpactOffset => "invalid impact record offset",
            PostingError::ImpactTrailing => "unaddressed impact payload bytes",
            PostingError::ImpactExtent => "invalid impact point count or record extent",
            PostingError::ImpactCoordinate => "invalid impact coordinate",
            PostingError::ImpactFrequency => "impact frequency exceeds u32",
            PostingError::ImpactLength => "impact length exceeds u32",
            PostingError::ImpactGroupCount => "impact group count overflow",
            PostingError::ImpactZero => "impact coordinates must be positive",
            PostingError::ImpactOrder => "impact points are not strictly ordered",
            PostingError::ImpactConvex => "impact envelope is not convex",
            PostingError::ImpactRecordTrailing => "unaddressed impact record bytes",
            PostingError::ImpactBudget => "impact output exceeds admitted block budget",
            PostingError::ImpactPayload => "impact payload exceeds u32 offsets",
            PostingError::ImpactPoints => "impact construction exceeds posting block size",
            PostingError::ImpactGroups => "impact groups require complete L0 output",
            PostingError::ImpactLengths => "impact bounds require scoring lengths",
            PostingError::StreamTooLong => "posting list stream exceeds u32::MAX bytes",
            PostingError::MergedTooLong =>
                "posting list stream exceeds u32::MAX bytes during concatenation",
            PostingError::StreamedTooLong =>
                "posting list stream exceeds u32::MAX bytes during streaming merge",
            PostingError::RemapOverflow => "posting document remapping overflow",
            PostingError::RemapOrder => "invalid remapped posting document order",
            PostingError::MergedCount => "merged posting count overflow",
            PostingError::MergedPositions => "merged position cursor overflow",
            PostingError::MixedCursors =>
                "cannot concatenate posting lists with and without position cursors",
            PostingError::CompactHeaders =>
                "select compact headers before appending fixed-width blocks",
            PostingError::AppendBlock => "invalid streaming posting block admission",
            PostingError::AppendAddress => "posting address overflow",
            PostingError::AppendOrder => "invalid streaming posting order or size",
            PostingError::AppendCount => "posting count overflow",
            PostingError::AppendPositions => "position count overflow",
            PostingError::BlockExtent => "posting block exceeds encoded block bound",
            PostingError::SourceBudget =>
                "posting directory exceeds compaction scratch budget",
            PostingError::OutputBudget =>
                "posting output directory exceeds compaction scratch budget",
            PostingError::ImpactMemory =>
                "posting impact directory exceeds compaction scratch budget",
            PostingError::RatioMemory =>
                "posting ratio directory exceeds compaction scratch budget",
            PostingError::FooterRead =>
                "posting footer read returned an incorrect byte count",
            PostingError::DirectoryRead =>
                "posting directory read returned an incorrect byte count",
            PostingError::BlockRead => "posting block read returned an incorrect byte count",
            PostingError::SourceCounts => "invalid posting source counts",
            PostingError::SourceDirectory => "invalid compacted source posting directory",
            PostingError::SourceCursors => "invalid source posting position cursors",
            PostingError::Cancelled => "posting compaction cancelled",
        }
    }
}

} // verus!
