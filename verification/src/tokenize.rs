//! The tokenizer (`tokenizers`) and the token-bounded splitter
//! (`text-splitter`), as the chunker calls them.

use vstd::prelude::*;

use text_splitter::{ChunkConfig, ChunkSizer, TextSplitter, TryChunkSizer};
use tokenizers::{Encoding, Tokenizer};

use crate::chars::is_ws;

verus! {

#[verifier::external_type_specification]
#[verifier::external_body]
pub struct ExTokenizer(Tokenizer);

#[verifier::external_type_specification]
#[verifier::external_body]
pub struct ExEncoding(Encoding);

/// The tokenizer as text-splitter's chunk sizer (`TryChunkSizer`), failing
/// with the tokenizer's error message where the tokenizer cannot encode a
/// chunk: `Tokenizer::encode_fast(chunk, false)` is tried first, and only a
/// chunk it encodes is sized, by text-splitter's own `ChunkSizer::size` for
/// `Tokenizer`. Where text-splitter's sizer would panic, this one fails
/// instead; nothing else is claimed of it.
pub struct TokenSizer<'a> {
    tokenizer: &'a Tokenizer,
}

impl<'a> TryChunkSizer for TokenSizer<'a> {
    type Error = String;

    #[verifier::external_body]
    fn try_size(&self, chunk: &str) -> Result<usize, String> {
        match self.tokenizer.encode_fast(chunk, false) {
            Ok(_) => Ok(ChunkSizer::size(self.tokenizer, chunk)),
            Err(e) => Err(e.to_string()),
        }
    }
}

/// `Tokenizer::encode(text, true)` (special tokens added), `None` when the
/// tokenizer reports an error. Nothing is claimed of the encoding: it follows
/// from the vocabulary and rules loaded into the tokenizer.
#[verifier::external_body]
pub(crate) fn tokenizer_encode(tokenizer: &Tokenizer, text: &str) -> Option<Encoding> {
    tokenizer.encode(text, true).ok()
}

/// `Encoding::len`: the number of tokens of an encoding. Nothing is claimed of
/// it.
#[verifier::external_body]
pub(crate) fn encoding_len(encoding: &Encoding) -> usize {
    encoding.len()
}

/// Whether the pieces cover every non-whitespace character of `text`: each
/// such character lies inside some piece, at its offset.
pub open spec fn covers(text: Seq<char>, offsets: Seq<int>, pieces: Seq<Seq<char>>) -> bool {
    forall|k: int|
        0 <= k < text.len() && !is_ws(#[trigger] text[k]) ==> exists|i: int|
            0 <= i < pieces.len() && 0 <= i < offsets.len() && offsets[i] <= k < offsets[i]
                + #[trigger] pieces[i].len()
}

/// Splits `text` with `text_splitter` into chunks of up to `capacity` tokens
/// of `tokenizer`, neighbours overlapping by `overlap` tokens:
/// `ChunkConfig::new(capacity).with_sizer(TokenSizer)` with
/// `with_overlap(overlap)`, then `TextSplitter::try_chunk_char_indices`, each
/// chunk with its character offset. It fails, with the error message, when
/// the configuration is refused (exactly when `overlap` is at least
/// `capacity`) or when the tokenizer cannot encode a candidate chunk. Of a
/// success, the source shows: each chunk is the text found at its offset;
/// empty chunks and chunks that do not end after the previous one are
/// skipped, so every chunk is non-empty and their ends strictly increase;
/// each chunk starts at the splitter's cursor, the cursor never passes the
/// end of the chunk just taken, the splitter runs to the end of the text and
/// trimming removes only whitespace, so the chunks cover every
/// non-whitespace character. Which chunks it chooses (semantic levels, token
/// budget, overlap) is not claimed.
#[verifier::external_body]
pub(crate) fn split_chunks(tokenizer: &Tokenizer, text: &str, capacity: usize, overlap: usize) -> (r: Result<Vec<(usize, String)>, String>)
    ensures
        overlap >= capacity ==> r is Err,
        r matches Ok(pieces) ==> forall|i: int|
            0 <= i < pieces@.len() ==> {
                let (o, piece) = #[trigger] pieces@[i];
                &&& piece@.len() > 0
                &&& o + piece@.len() <= text@.len()
                &&& text@.subrange(o as int, o + piece@.len()) == piece@
            },
        r matches Ok(pieces) ==> forall|i: int, j: int|
            0 <= i < j < pieces@.len() ==> #[trigger] pieces@[i].0 + pieces@[i].1@.len()
                < #[trigger] pieces@[j].0 + pieces@[j].1@.len(),
        r matches Ok(pieces) ==> covers(
            text@,
            pieces@.map_values(|p: (usize, String)| p.0 as int),
            pieces@.map_values(|p: (usize, String)| p.1@),
        ),
{
    let sizer = TokenSizer { tokenizer };
    let config = ChunkConfig::new(capacity).with_sizer(sizer).with_overlap(overlap).map_err(|e| e.to_string())?;
    let splitter = TextSplitter::new(config);
    splitter.try_chunk_char_indices(text).map(|c| c.map(|c| (c.char_offset, c.chunk.to_owned()))).collect()
}

} // verus!
