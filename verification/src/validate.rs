use vstd::prelude::*;
use crate::beam::MAX_BITMASK_SYMBOLS;

verus! {

/// Why a sequence or a corpus cannot be processed.
#[derive(Clone, Copy, Debug, PartialEq, Eq, Structural)]
pub enum ValidationError {
    /// The sequence holds more symbols than the coverage bitmask tracks.
    SequenceTooLong { len: usize, limit: usize },
    /// Sequence `index` (counted from 0) of a corpus is too long.
    CorpusSequenceTooLong { index: usize, len: usize, limit: usize },
}

/// Accepts a sequence of at most `MAX_BITMASK_SYMBOLS` symbols.
pub fn validate_sequence(seq: &[&str]) -> (r: Result<(), ValidationError>)
    ensures
        seq@.len() <= MAX_BITMASK_SYMBOLS ==> r is Ok,
        seq@.len() > MAX_BITMASK_SYMBOLS ==> r == Err::<(), ValidationError>(
            ValidationError::SequenceTooLong { len: seq@.len() as usize, limit: MAX_BITMASK_SYMBOLS },
        ),
{
    if seq.len() > MAX_BITMASK_SYMBOLS {
        Err(ValidationError::SequenceTooLong { len: seq.len(), limit: MAX_BITMASK_SYMBOLS })
    } else {
        Ok(())
    }
}

/// Accepts a corpus whose sequences all hold at most `MAX_BITMASK_SYMBOLS`
/// symbols; otherwise reports the first sequence that holds more.
pub fn validate_corpus(corpus: &[Vec<&str>]) -> (r: Result<(), ValidationError>)
    ensures
        r is Ok <==> forall|i: int| 0 <= i < corpus@.len() ==> (#[trigger] corpus@[i])@.len() <= MAX_BITMASK_SYMBOLS,
        r is Err ==> exists|i: int|
            0 <= i < corpus@.len() && corpus@[i]@.len() > MAX_BITMASK_SYMBOLS && (forall|k: int|
                0 <= k < i ==> (#[trigger] corpus@[k])@.len() <= MAX_BITMASK_SYMBOLS) && r
                == Err::<(), ValidationError>(
                ValidationError::CorpusSequenceTooLong {
                    index: i as usize,
                    len: corpus@[i]@.len() as usize,
                    limit: MAX_BITMASK_SYMBOLS,
                },
            ),
{
    let n = corpus.len();
    let mut i: usize = 0;
    while i < n
        invariant
            n == corpus@.len(),
            i <= n,
            forall|k: int| 0 <= k < i ==> (#[trigger] corpus@[k])@.len() <= MAX_BITMASK_SYMBOLS,
        decreases n - i,
    {
        let len = corpus[i].len();
        if len > MAX_BITMASK_SYMBOLS {
            return Err(ValidationError::CorpusSequenceTooLong { index: i, len, limit: MAX_BITMASK_SYMBOLS });
        }
        i = i + 1;
    }
    Ok(())
}

} // verus!
