use vstd::prelude::*;

use crate::error::VandalizeError;
use crate::naming::{decimal_width, digits, file_name, file_name_of, lemma_names_distinct};
use crate::source::Source;
use crate::substitute::{in_bounds, scramble, scramble_at, substituted};

verus! {

/// How the offsets of a batch of copies are chosen.
#[derive(Debug, Clone, Copy, PartialEq, Eq, Structural)]
pub enum Strategy {
    /// Each copy gets one offset drawn uniformly; copies are numbered `0, 1, 2, …`.
    Random,
    /// Copy `i` gets offset `i * stride`, and is numbered by that offset.
    Every { stride: usize },
}

/// The batch of copies to make from a source of `source_len` bytes: how many,
/// how their offsets are chosen, and the width their numbers are padded to.
#[derive(Debug, Clone, Copy, PartialEq, Eq, Structural)]
pub struct OutputPlan {
    pub strategy: Strategy,
    pub count: usize,
    pub width: usize,
    pub source_len: usize,
}

/// One corrupted copy: the name of its file and its bytes.
pub struct OutputFile {
    pub file_name: String,
    pub data: Vec<u8>,
}

impl OutputPlan {
    pub open spec fn well_formed(&self) -> bool {
        &&& self.width == digits(self.count as nat)
        &&& match self.strategy {
            Strategy::Random => self.source_len > 0 || self.count == 0,
            Strategy::Every { stride } => stride > 0 && self.count == self.source_len / stride,
        }
    }

    /// The number in the name of copy `i`.
    pub open spec fn index_of(&self, i: nat) -> nat {
        match self.strategy {
            Strategy::Random => i,
            Strategy::Every { stride } => i * (stride as nat),
        }
    }

    proof fn lemma_offset_in_bounds(&self, i: nat)
        requires
            self.well_formed(),
            self.strategy is Every,
            i < self.count,
        ensures
            self.index_of(i) < self.source_len,
    {
        let stride = self.strategy->stride as int;
        let len = self.source_len as int;
        assert(i * stride <= (len / stride - 1) * stride) by (nonlinear_arith)
            requires
                i <= len / stride - 1,
                stride > 0,
        ;
        assert((len / stride - 1) * stride < len) by (nonlinear_arith)
            requires
                stride > 0,
                len >= 0,
        ;
    }

    /// The number in the name of copy `i`.
    pub fn index(&self, i: usize) -> (r: usize)
        requires
            self.well_formed(),
            i < self.count,
        ensures
            r == self.index_of(i as nat),
    {
        match self.strategy {
            Strategy::Random => i,
            Strategy::Every { stride } => {
                proof {
                    self.lemma_offset_in_bounds(i as nat);
                }
                i * stride
            },
        }
    }

    /// Makes copy `i` of `source`: its file is named after `index_of(i)`, and
    /// its bytes are those of `source` with one byte replaced by a freshly
    /// drawn one; at offset `index_of(i)` for `Every`, at a drawn offset for
    /// `Random`.
    pub fn copy(&self, source: &Source, i: usize) -> (r: OutputFile)
        requires
            self.well_formed(),
            self.source_len == source.data@.len(),
            i < self.count,
        ensures
            r.file_name@ == file_name_of(
                source.base_name@,
                self.index_of(i as nat),
                self.width as nat,
                source.extension@,
            ),
            exists|offset: usize, byte: u8|
                offset < source.data@.len() && (self.strategy is Every ==> offset == self.index_of(
                    i as nat,
                )) && r.data@ == source.data@.update(offset as int, byte),
    {
        let index = self.index(i);
        let name = file_name(source.base_name.as_str(), index, self.width, source.extension.as_str());
        let data = match self.strategy {
            Strategy::Random => scramble(source.data.as_slice(), 1),
            Strategy::Every { .. } => {
                let positions = vec![index];
                proof {
                    self.lemma_offset_in_bounds(i as nat);
                }
                scramble_at(source.data.as_slice(), positions.as_slice())
            },
        };
        proof {
            let d = source.data@;
            let (ps, fs) = choose|ps: Seq<usize>, fs: Seq<u8>|
                ps.len() == 1 && in_bounds(ps, d.len()) && fs.len() == 1 && data@ == substituted(
                    d,
                    ps,
                    fs,
                ) && (self.strategy is Every ==> ps[0] == index);
            lemma_single_substitution(d, ps, fs);
        }
        OutputFile { file_name: name, data }
    }
}

/// With one offset, substitution replaces the byte there.
proof fn lemma_single_substitution(data: Seq<u8>, positions: Seq<usize>, fresh: Seq<u8>)
    requires
        positions.len() == 1,
        fresh.len() == 1,
    ensures
        substituted(data, positions, fresh) == data.update(positions[0] as int, fresh[0]),
{
    assert(positions.take(0).len() == 0);
    assert(substituted(data, positions.take(0), fresh.take(0)) == data);
}

/// Plans `copies` copies of `source`, each with one byte replaced at an
/// offset drawn uniformly, numbered `0, 1, 2, …` and padded to the digits of
/// `copies`. No offset can be drawn from an empty source: asking for any copy
/// of one gives `InvalidRange`.
pub fn vandalize(source: &Source, copies: usize) -> (r: Result<OutputPlan, VandalizeError>)
    ensures
        r is Err <==> source.data@.len() == 0 && copies > 0,
        r is Err ==> r == Err::<OutputPlan, VandalizeError>(VandalizeError::InvalidRange),
        r matches Ok(plan) ==> plan.well_formed() && plan.strategy == Strategy::Random
            && plan.count == copies && plan.source_len == source.data@.len(),
{
    let len = source.len();
    if len == 0 && copies > 0 {
        return Err(VandalizeError::InvalidRange);
    }
    Ok(
        OutputPlan {
            strategy: Strategy::Random,
            count: copies,
            width: decimal_width(copies),
            source_len: len,
        },
    )
}

/// Plans one copy of `source` for every `every_nth` byte: offsets `0,
/// every_nth, 2 * every_nth, …`, `len / every_nth` of them, each copy numbered
/// by its offset and padded to the digits of their count. A stride of zero
/// gives `InvalidArgument`.
pub fn every(source: &Source, every_nth: usize) -> (r: Result<OutputPlan, VandalizeError>)
    ensures
        r is Err <==> every_nth == 0,
        r is Err ==> r == Err::<OutputPlan, VandalizeError>(VandalizeError::InvalidArgument),
        r matches Ok(plan) ==> plan.well_formed() && plan.strategy == (Strategy::Every {
            stride: every_nth,
        }) && plan.count == source.data@.len() / (every_nth as nat) && plan.source_len
            == source.data@.len(),
{
    if every_nth == 0 {
        return Err(VandalizeError::InvalidArgument);
    }
    let len = source.len();
    let total = len / every_nth;
    Ok(
        OutputPlan {
            strategy: Strategy::Every { stride: every_nth },
            count: total,
            width: decimal_width(total),
            source_len: len,
        },
    )
}

/// The copies of a batch have pairwise different file names.
pub proof fn lemma_copies_named_apart(
    plan: OutputPlan,
    base: Seq<char>,
    extension: Seq<char>,
    i: nat,
    j: nat,
)
    requires
        plan.well_formed(),
        i < plan.count,
        j < plan.count,
        i != j,
    ensures
        file_name_of(base, plan.index_of(i), plan.width as nat, extension) != file_name_of(
            base,
            plan.index_of(j),
            plan.width as nat,
            extension,
        ),
{
    if let Strategy::Every { stride } = plan.strategy {
        let s = stride as nat;
        assert(i * s != j * s) by (nonlinear_arith)
            requires
                i != j,
                s > 0,
        ;
    }
    lemma_names_distinct(base, extension, plan.width as nat, plan.index_of(i), plan.index_of(j));
}

/// With stride one, every byte gets a copy: there are as many copies as
/// bytes, and copy `p` is the one for offset `p`, named by `p`.
pub proof fn lemma_every_byte_covered(plan: OutputPlan)
    requires
        plan.well_formed(),
        plan.strategy == (Strategy::Every { stride: 1 }),
    ensures
        plan.count == plan.source_len,
        forall|p: nat| p < plan.source_len ==> #[trigger] plan.index_of(p) == p,
{
}

/// With stride `s`, there are `len / s` copies, at offsets `0, s, 2s, …`, all
/// within the source.
pub proof fn lemma_every_stride_offsets(plan: OutputPlan)
    requires
        plan.well_formed(),
        plan.strategy is Every,
    ensures
        plan.count == plan.source_len as nat / (plan.strategy->stride as nat),
        forall|i: nat|
            i < plan.count ==> #[trigger] plan.index_of(i) == i * (plan.strategy->stride as nat)
                && plan.index_of(i) < plan.source_len,
{
    assert forall|i: nat| i < plan.count implies #[trigger] plan.index_of(i) < plan.source_len by {
        plan.lemma_offset_in_bounds(i);
    }
}

/// An empty source gets no copies, whichever the strategy.
pub proof fn lemma_empty_source_no_copies(plan: OutputPlan)
    requires
        plan.well_formed(),
        plan.source_len == 0,
    ensures
        plan.count == 0,
{
}

} // verus!
