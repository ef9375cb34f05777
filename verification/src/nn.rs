//! The shape of the prefix-LM transformer: its configuration, its attention mask
//! and the places its heads read.
//!
//! The attention mask is a *prefix* mask, not a causal one: the position tokens
//! all see each other, while trace tokens stay causal. Getting this wrong still
//! loads, still runs, and only shows up as an engine that plays badly.

use safetensors::tensor::Metadata;
use safetensors::{SafeTensorError, SafeTensors};
use vstd::prelude::*;

use crate::text::{chars_of, read_unsigned, unsigned_number};
use crate::vocab::{PREFIX_LEN, SEQ_LEN};

verus! {

/// The shape of a trained network; read back from safetensors metadata.
#[derive(Clone, Copy, PartialEq, Eq, Structural, Debug)]
pub struct ModelConfig {
    pub d_model: usize,
    pub n_layer: usize,
    pub n_head: usize,
    pub d_ff: usize,
    pub vocab_size: usize,
    pub seq_len: usize,
    pub prefix_len: usize,
    pub n_moves: usize,
}

impl Default for ModelConfig {
    fn default() -> (r: ModelConfig)
        ensures
            r == (ModelConfig {
                d_model: 128,
                n_layer: 4,
                n_head: 4,
                d_ff: 384,
                vocab_size: 196,
                seq_len: SEQ_LEN,
                prefix_len: PREFIX_LEN,
                n_moves: 4672,
            }),
    {
        ModelConfig {
            d_model: 128,
            n_layer: 4,
            n_head: 4,
            d_ff: 384,
            vocab_size: crate::vocab::vocab_size(),
            seq_len: SEQ_LEN,
            prefix_len: PREFIX_LEN,
            n_moves: 4672,
        }
    }
}

/// May query `i` attend to key `j`? The prefix is bidirectional, the rest causal.
pub open spec fn may_attend(i: int, j: int, prefix_len: int) -> bool {
    j <= i || (i < prefix_len && j < prefix_len)
}

/// `true` where query `i` may attend to key `j`, query by query.
///
/// A board is not a sequence: square a1 has every right to look at h8, so the
/// prefix is bidirectional. Only the trace is autoregressive.
pub fn prefix_mask(seq_len: usize, prefix_len: usize) -> (r: Vec<bool>)
    requires
        seq_len * seq_len <= usize::MAX,
    ensures
        r@.len() == seq_len * seq_len,
        forall|i: int, j: int| 0 <= i < seq_len && 0 <= j < seq_len ==> #[trigger] r@[i * seq_len + j] == may_attend(
            i,
            j,
            prefix_len as int,
        ),
{
    let mut mask: Vec<bool> = Vec::new();
    let mut i: usize = 0;
    assert(0 * seq_len == 0);
    while i < seq_len
        invariant
            i <= seq_len,
            mask@.len() == i * seq_len,
            forall|a: int, b: int| 0 <= a < i && 0 <= b < seq_len ==> #[trigger] mask@[a * seq_len + b] == may_attend(
                a,
                b,
                prefix_len as int,
            ),
        decreases seq_len - i,
    {
        let mut j: usize = 0;
        while j < seq_len
            invariant
                i < seq_len,
                j <= seq_len,
                mask@.len() == i * seq_len + j,
                forall|a: int, b: int| 0 <= a < i && 0 <= b < seq_len ==> #[trigger] mask@[a * seq_len + b]
                    == may_attend(a, b, prefix_len as int),
                forall|b: int| 0 <= b < j ==> #[trigger] mask@[i * seq_len + b] == may_attend(
                    i as int,
                    b,
                    prefix_len as int,
                ),
            decreases seq_len - j,
        {
            let ghost before = mask@;
            let causal = j <= i;
            let both_in_prefix = i < prefix_len && j < prefix_len;
            mask.push(causal || both_in_prefix);
            assert forall|a: int, b: int| 0 <= a < i && 0 <= b < seq_len implies #[trigger] mask@[a * seq_len + b]
                == may_attend(a, b, prefix_len as int) by {
                lemma_earlier_row(a, b, i as int, seq_len as int);
                assert(before[a * seq_len + b] == may_attend(a, b, prefix_len as int));
            }
            j = j + 1;
        }
        assert((i + 1) * seq_len == i * seq_len + seq_len) by (nonlinear_arith);
        i = i + 1;
    }
    mask
}

proof fn lemma_earlier_row(a: int, b: int, i: int, n: int)
    requires
        0 <= a < i,
        0 <= b < n,
    ensures
        0 <= a * n + b < i * n,
{
    assert(0 <= a * n + b < i * n) by (nonlinear_arith)
        requires 0 <= a < i, 0 <= b < n;
}

/// Over the board the mask is bidirectional, over the trace it is causal: a
/// position token sees every position token and no trace token, and a trace token
/// sees what comes no later than itself.
pub proof fn law_mask_is_bidirectional_over_the_board_and_causal_over_the_trace(i: int, j: int, prefix_len: int)
    requires
        0 <= i,
        0 <= j,
    ensures
        i < prefix_len ==> (may_attend(i, j, prefix_len) <==> j < prefix_len),
        i >= prefix_len ==> (may_attend(i, j, prefix_len) <==> j <= i),
{
}

/// The hidden states that the heads read of a sequence: the last of the prefix and
/// the last of all.
pub fn readouts(prefix_len: usize, seq_len: usize) -> (r: (usize, usize))
    requires
        prefix_len >= 1,
        seq_len >= 1,
    ensures
        r.0 == (if prefix_len <= seq_len { prefix_len - 1 } else { seq_len - 1 }),
        r.1 == seq_len - 1,
{
    let fast: usize = if prefix_len <= seq_len {
        prefix_len - 1
    } else {
        seq_len - 1
    };
    (fast, seq_len - 1)
}

/// `safetensors::SafeTensorError`, why a file's header could not be read.
#[verifier::external_type_specification]
#[verifier::external_body]
pub struct ExSafeTensorError(safetensors::SafeTensorError);

/// The metadata in the header of a safetensors file: `None` where the header is
/// refused, `Some(None)` where it carries no metadata.
pub uninterp spec fn header_metadata(bytes: Seq<u8>) -> Option<Option<Map<Seq<char>, Seq<char>>>>;

/// The length of a header: the first eight bytes of the file, the lowest first.
pub open spec fn header_len(bytes: Seq<u8>) -> int {
    bytes[0] + 0x100 * bytes[1] + 0x1_0000 * bytes[2] + 0x100_0000 * bytes[3] + 0x1_0000_0000 * bytes[4]
        + 0x100_0000_0000 * bytes[5] + 0x1_0000_0000_0000 * bytes[6] + 0x100_0000_0000_0000 * bytes[7]
}

/// The file is long enough for the header that it announces.
pub open spec fn has_header(bytes: Seq<u8>) -> bool {
    bytes.len() >= 8 && 8 + header_len(bytes) <= bytes.len()
}

/// The JSON text of a header.
pub open spec fn header_text(bytes: Seq<u8>) -> Seq<u8> {
    bytes.subrange(8, 8 + header_len(bytes))
}

/// The pairs of offsets between which the tensors of a header claim to lie; `None`
/// where the text is no header.
pub uninterp spec fn claimed_offsets(text: Seq<u8>) -> Option<Set<(usize, usize)>>;

/// `serde_json::from_slice` of a header's text as the `Metadata` of `safetensors`, and
/// the `data_offsets` of each of `Metadata::tensors`, in no particular order.
/// `SafeTensors::read_metadata` reads the text of a header in the same way.
#[verifier::external_body]
fn tensor_offsets(text: &Vec<u8>) -> (r: Option<Vec<(usize, usize)>>)
    ensures
        claimed_offsets(text@) == (match r {
            Some(offsets) => Some(offsets@.to_set()),
            None => None,
        }),
{
    let header: Metadata = serde_json::from_slice(text).ok()?;
    Some(header.tensors().values().map(|tensor| tensor.data_offsets).collect())
}

/// The place in the file at which each tensor claims to end can be computed: its end,
/// eight and the header's length add up to a `usize`. A file whose tensors end further
/// out does not exist.
pub open spec fn ends_fit(bytes: Seq<u8>) -> bool {
    has_header(bytes) && claimed_offsets(header_text(bytes)) is Some ==> forall|offsets: (usize, usize)|
        #[trigger] (claimed_offsets(header_text(bytes))->0).contains(offsets) ==> offsets.1 + 8 + header_len(bytes)
            <= usize::MAX
}

/// Can every place at which a tensor claims to end be computed?
fn check_ends(bytes: &Vec<u8>) -> (r: bool)
    ensures
        r == ends_fit(bytes@),
{
    if bytes.len() < 8 {
        return true;
    }
    let n: u128 = bytes[0] as u128 + 0x100 * bytes[1] as u128 + 0x1_0000 * bytes[2] as u128 + 0x100_0000
        * bytes[3] as u128 + 0x1_0000_0000 * bytes[4] as u128 + 0x100_0000_0000 * bytes[5] as u128
        + 0x1_0000_0000_0000 * bytes[6] as u128 + 0x100_0000_0000_0000 * bytes[7] as u128;
    assert(n == header_len(bytes@));
    let len: usize = bytes.len();
    if n > (len - 8) as u128 {
        return true;
    }
    let end: usize = 8 + n as usize;
    let mut text: Vec<u8> = Vec::new();
    let mut i: usize = 8;
    while i < end
        invariant
            8 <= i <= end <= bytes@.len(),
            text@ == bytes@.subrange(8, i as int),
        decreases end - i,
    {
        text.push(bytes[i]);
        i = i + 1;
        assert(text@ =~= bytes@.subrange(8, i as int));
    }
    assert(text@ == header_text(bytes@));
    let offsets = match tensor_offsets(&text) {
        Some(offsets) => offsets,
        None => {
            return true;
        },
    };
    let mut k: usize = 0;
    while k < offsets.len()
        invariant
            k <= offsets@.len(),
            end == 8 + header_len(bytes@),
            has_header(bytes@),
            claimed_offsets(header_text(bytes@)) == Some(offsets@.to_set()),
            forall|j: int| 0 <= j < k ==> (#[trigger] offsets@[j]).1 <= usize::MAX - end,
        decreases offsets@.len() - k,
    {
        if offsets[k].1 > usize::MAX - end {
            assert(offsets@.contains(offsets@[k as int]));
            assert((claimed_offsets(header_text(bytes@))->0).contains(offsets@[k as int]));
            return false;
        }
        k = k + 1;
    }
    true
}

/// `SafeTensors::read_metadata` and a look at one key of the metadata it found: no
/// metadata, no such key, or the key's value. An error is the header's refusal; which
/// one it is stays unsaid. `read_metadata` adds eight and the header's length to the
/// offset at which the last tensor claims to end, and does not check for overflow.
#[verifier::external_body]
fn metadata_value(bytes: &Vec<u8>, key: &str) -> (r: Result<Option<Option<String>>, SafeTensorError>)
    requires
        ends_fit(bytes@),
    ensures
        match r {
            Err(_) => header_metadata(bytes@) is None,
            Ok(None) => header_metadata(bytes@) == Some(None::<Map<Seq<char>, Seq<char>>>),
            Ok(Some(None)) => header_metadata(bytes@) is Some && header_metadata(bytes@)->0 is Some
                && !(header_metadata(bytes@)->0->0).dom().contains(key@),
            Ok(Some(Some(value))) => header_metadata(bytes@) is Some && header_metadata(bytes@)->0 is Some && (
            header_metadata(bytes@)->0->0).dom().contains(key@) && (header_metadata(bytes@)->0->0)[key@] == value@,
        },
{
    let (_, header) = SafeTensors::read_metadata(bytes)?;
    Ok(header.metadata().as_ref().map(|map| map.get(key).cloned()))
}

/// The metadata of a file: `None` where its header is refused, which it is if a tensor
/// ends too far out, and `Some(None)` where it carries none.
pub open spec fn file_metadata(bytes: Seq<u8>) -> Option<Option<Map<Seq<char>, Seq<char>>>> {
    if ends_fit(bytes) {
        header_metadata(bytes)
    } else {
        None
    }
}

/// Why a file gives no configuration.
#[derive(Debug)]
pub enum ConfigError {
    /// A tensor claims to end so far out that its place in the file is no number.
    Offsets,
    /// The header could not be read.
    Header(SafeTensorError),
    /// The header carries no metadata.
    NoMetadata,
    /// The metadata lacks a key.
    Missing(String),
    /// The value of a key is no number.
    NotANumber { key: String, value: String },
    /// The weights were trained with another shape of sequence.
    Lengths { prefix_len: usize, seq_len: usize },
    /// The weights have another vocabulary.
    Vocabulary(usize),
    /// The model's width is not divisible by the number of heads.
    Heads { d_model: usize, n_head: usize },
    /// The model has no heads at all.
    NoHeads,
}

/// The keys of the metadata, in the order in which they are read.
pub const KEYS: [&'static str; 8] = [
    "d_model",
    "n_layer",
    "n_head",
    "d_ff",
    "vocab_size",
    "seq_len",
    "prefix_len",
    "n_moves",
];

/// The number that a key has.
pub open spec fn key_number(map: Map<Seq<char>, Seq<char>>, key: Seq<char>) -> Option<nat> {
    if map.dom().contains(key) {
        unsigned_number(map[key], usize::MAX as nat)
    } else {
        None
    }
}

/// The first key that is missing or is no number is the `k`-th.
pub open spec fn fails_at(map: Map<Seq<char>, Seq<char>>, k: int) -> bool {
    &&& 0 <= k < 8
    &&& key_number(map, KEYS[k]@) is None
    &&& forall|j: int| 0 <= j < k ==> key_number(map, (#[trigger] KEYS[j])@) is Some
}

/// Every key has a number.
pub open spec fn complete(map: Map<Seq<char>, Seq<char>>) -> bool {
    forall|j: int| 0 <= j < 8 ==> key_number(map, (#[trigger] KEYS[j])@) is Some
}

/// The configuration that complete metadata describe.
pub open spec fn described(map: Map<Seq<char>, Seq<char>>) -> ModelConfig {
    ModelConfig {
        d_model: key_number(map, KEYS[0]@)->0 as usize,
        n_layer: key_number(map, KEYS[1]@)->0 as usize,
        n_head: key_number(map, KEYS[2]@)->0 as usize,
        d_ff: key_number(map, KEYS[3]@)->0 as usize,
        vocab_size: key_number(map, KEYS[4]@)->0 as usize,
        seq_len: key_number(map, KEYS[5]@)->0 as usize,
        prefix_len: key_number(map, KEYS[6]@)->0 as usize,
        n_moves: key_number(map, KEYS[7]@)->0 as usize,
    }
}

/// The engine and the trainer agree about the shape of a sequence.
pub open spec fn lengths_agree(c: ModelConfig) -> bool {
    c.prefix_len == PREFIX_LEN && c.seq_len == SEQ_LEN
}

/// What is wrong with a configuration, if anything.
pub open spec fn refusal(c: ModelConfig) -> Option<ConfigError> {
    if !lengths_agree(c) {
        Some(ConfigError::Lengths { prefix_len: c.prefix_len, seq_len: c.seq_len })
    } else if c.vocab_size != 196 {
        Some(ConfigError::Vocabulary(c.vocab_size))
    } else if c.d_model as int % c.n_head as int != 0 {
        Some(ConfigError::Heads { d_model: c.d_model, n_head: c.n_head })
    } else {
        None
    }
}

/// The number of heads is asked for, and there are none.
pub open spec fn headless(c: ModelConfig) -> bool {
    lengths_agree(c) && c.vocab_size == 196 && c.n_head == 0
}

/// Hold a configuration against this engine. The engine and the trainer must agree
/// about the shape of a sequence, or the readout positions point at the wrong
/// hidden states.
pub fn check_config(cfg: &ModelConfig) -> (r: Result<(), ConfigError>)
    requires
        !headless(*cfg),
    ensures
        r == (match refusal(*cfg) {
            Some(e) => Err::<(), ConfigError>(e),
            None => Ok::<(), ConfigError>(()),
        }),
{
    if cfg.prefix_len != PREFIX_LEN || cfg.seq_len != SEQ_LEN {
        return Err(ConfigError::Lengths { prefix_len: cfg.prefix_len, seq_len: cfg.seq_len });
    }
    if cfg.vocab_size != crate::vocab::vocab_size() {
        return Err(ConfigError::Vocabulary(cfg.vocab_size));
    }
    if cfg.d_model % cfg.n_head != 0 {
        return Err(ConfigError::Heads { d_model: cfg.d_model, n_head: cfg.n_head });
    }
    Ok(())
}

/// Read the trainer's configuration out of the bytes of a safetensors file.
///
/// The metadata is authoritative, not the tensor shapes: `n_head` cannot be
/// recovered from shapes at all (it only partitions `d_model`), and guessing it
/// would silently produce a different attention pattern than the one trained.
pub fn read_config(bytes: &Vec<u8>) -> (r: Result<ModelConfig, ConfigError>)
    ensures
        match file_metadata(bytes@) {
            None => if ends_fit(bytes@) {
                r matches Err(ConfigError::Header(_))
            } else {
                r matches Err(ConfigError::Offsets)
            },
            Some(None) => r matches Err(ConfigError::NoMetadata),
            Some(Some(map)) => if complete(map) && headless(described(map)) {
                r matches Err(ConfigError::NoHeads)
            } else if complete(map) {
                match refusal(described(map)) {
                    Some(e) => r == Err::<ModelConfig, ConfigError>(e),
                    None => r == Ok::<ModelConfig, ConfigError>(described(map)),
                }
            } else {
                match r {
                    Err(ConfigError::Missing(key)) => exists|k: int| #[trigger] fails_at(map, k) && key@ == KEYS[k]@
                        && !map.dom().contains(key@),
                    Err(ConfigError::NotANumber { key, value }) => exists|k: int| #[trigger] fails_at(map, k)
                        && key@ == KEYS[k]@ && map.dom().contains(key@) && value@ == map[key@],
                    _ => false,
                }
            },
        },
{
    if !check_ends(bytes) {
        return Err(ConfigError::Offsets);
    }
    let mut values: Vec<usize> = Vec::new();
    let mut k: usize = 0;
    while k < 8
        invariant
            k <= 8,
            ends_fit(bytes@),
            values@.len() == k,
            k > 0 ==> header_metadata(bytes@) is Some && header_metadata(bytes@)->0 is Some,
            forall|j: int| 0 <= j < k ==> key_number(header_metadata(bytes@)->0->0, (#[trigger] KEYS[j])@) == Some(
                values@[j] as nat,
            ),
        decreases 8 - k,
    {
        let key = KEYS[k];
        match metadata_value(bytes, key) {
            Err(e) => {
                return Err(ConfigError::Header(e));
            },
            Ok(None) => {
                return Err(ConfigError::NoMetadata);
            },
            Ok(Some(None)) => {
                assert(fails_at(header_metadata(bytes@)->0->0, k as int));
                return Err(ConfigError::Missing(key.to_owned()));
            },
            Ok(Some(Some(value))) => {
                match read_unsigned(&chars_of(value.as_str()), usize::MAX as u64) {
                    Some(n) => {
                        values.push(n as usize);
                    },
                    None => {
                        assert(fails_at(header_metadata(bytes@)->0->0, k as int));
                        return Err(ConfigError::NotANumber { key: key.to_owned(), value });
                    },
                }
            },
        }
        k = k + 1;
    }
    let cfg = ModelConfig {
        d_model: values[0],
        n_layer: values[1],
        n_head: values[2],
        d_ff: values[3],
        vocab_size: values[4],
        seq_len: values[5],
        prefix_len: values[6],
        n_moves: values[7],
    };
    proof {
        let map = header_metadata(bytes@)->0->0;
        assert(key_number(map, KEYS[0]@) == Some(values@[0] as nat));
        assert(key_number(map, KEYS[1]@) == Some(values@[1] as nat));
        assert(key_number(map, KEYS[2]@) == Some(values@[2] as nat));
        assert(key_number(map, KEYS[3]@) == Some(values@[3] as nat));
        assert(key_number(map, KEYS[4]@) == Some(values@[4] as nat));
        assert(key_number(map, KEYS[5]@) == Some(values@[5] as nat));
        assert(key_number(map, KEYS[6]@) == Some(values@[6] as nat));
        assert(key_number(map, KEYS[7]@) == Some(values@[7] as nat));
        assert(cfg == described(map));
    }
    if cfg.prefix_len == PREFIX_LEN && cfg.seq_len == SEQ_LEN && cfg.vocab_size == crate::vocab::vocab_size()
        && cfg.n_head == 0 {
        return Err(ConfigError::NoHeads);
    }
    match check_config(&cfg) {
        Ok(()) => Ok(cfg),
        Err(e) => Err(e),
    }
}

/// Each number of a configuration is read under its own name.
pub proof fn law_settings_are_read_by_name(map: Map<Seq<char>, Seq<char>>)
    requires
        complete(map),
    ensures
        ({
            let c = described(map);
            &&& key_number(map, "d_model"@) == Some(c.d_model as nat)
            &&& key_number(map, "n_layer"@) == Some(c.n_layer as nat)
            &&& key_number(map, "n_head"@) == Some(c.n_head as nat)
            &&& key_number(map, "d_ff"@) == Some(c.d_ff as nat)
            &&& key_number(map, "vocab_size"@) == Some(c.vocab_size as nat)
            &&& key_number(map, "seq_len"@) == Some(c.seq_len as nat)
            &&& key_number(map, "prefix_len"@) == Some(c.prefix_len as nat)
            &&& key_number(map, "n_moves"@) == Some(c.n_moves as nat)
        }),
{
    assert forall|j: int| 0 <= j < 8 implies key_number(map, (#[trigger] KEYS[j])@) is Some && key_number(
        map,
        KEYS[j]@,
    )->0 <= usize::MAX by {
    }
    assert(KEYS[0]@ == "d_model"@);
    assert(KEYS[1]@ == "n_layer"@);
    assert(KEYS[2]@ == "n_head"@);
    assert(KEYS[3]@ == "d_ff"@);
    assert(KEYS[4]@ == "vocab_size"@);
    assert(KEYS[5]@ == "seq_len"@);
    assert(KEYS[6]@ == "prefix_len"@);
    assert(KEYS[7]@ == "n_moves"@);
}

/// A configuration is accepted if the position takes 70 tokens of 102, the vocabulary
/// has 196, and the heads share the width evenly; else the first of these that fails
/// is what is wrong.
pub proof fn law_configurations_are_held_against_the_engine(c: ModelConfig, share: int)
    requires
        c.n_head > 0,
    ensures
        c.prefix_len == 70 && c.seq_len == 102 && c.vocab_size == 196 && c.d_model == share * c.n_head ==> refusal(
            c,
        ) is None,
        refusal(c) is None ==> c.prefix_len == 70 && c.seq_len == 102 && c.vocab_size == 196 && c.d_model == (
        c.d_model as int / c.n_head as int) * c.n_head,
        c.prefix_len != 70 || c.seq_len != 102 <==> refusal(c) matches Some(ConfigError::Lengths { .. }),
        c.prefix_len == 70 && c.seq_len == 102 && c.vocab_size != 196 <==> refusal(c) matches Some(
            ConfigError::Vocabulary(_),
        ),
{
    let (d, n) = (c.d_model as int, c.n_head as int);
    vstd::arithmetic::div_mod::lemma_fundamental_div_mod(d, n);
    assert((d / n) * n == n * (d / n)) by (nonlinear_arith);
    if d == share * n {
        vstd::arithmetic::div_mod::lemma_mod_multiples_basic(share, n);
    }
}

/// The length of a header is read with its lowest byte first: a byte counts 256 times
/// as much as the byte before it.
pub proof fn law_header_lengths_are_little_endian(a: Seq<u8>, b: Seq<u8>, k: int)
    requires
        a.len() >= 8,
        b.len() >= 8,
        0 <= k < 8,
        forall|i: int| 0 <= i < 8 && i != k ==> #[trigger] a[i] == b[i],
        b[k] == a[k] + 1,
    ensures
        k == 0 ==> header_len(b) == header_len(a) + 1,
        k == 1 ==> header_len(b) == header_len(a) + 256,
        k == 2 ==> header_len(b) == header_len(a) + 65_536,
        k == 3 ==> header_len(b) == header_len(a) + 16_777_216,
        k >= 4 ==> header_len(b) >= header_len(a) + 4_294_967_296,
        k >= 5 ==> header_len(b) >= header_len(a) + 256 * 4_294_967_296,
        k >= 6 ==> header_len(b) >= header_len(a) + 65_536 * 4_294_967_296,
        k == 7 ==> header_len(b) == header_len(a) + 16_777_216 * 4_294_967_296,
{
}

} // verus!
