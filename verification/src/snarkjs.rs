//! Proofs of tree updates by the snarkjs command: what goes into it, and what comes out.

use crate::text::{decimal, digits_value, law_decimal_round_trip, u256_from_text, u256_to_text};
use crate::types::{
    be_bytes, be_value, lemma_be_bytes_of_value, lemma_be_value_bound, lemma_pow_256_32, two_256, Proof, B256,
    U256,
};
use vstd::prelude::*;

verus! {

/// Why no proof came out.
#[derive(Clone, Copy, Debug, PartialEq, Eq, Structural)]
pub enum SnarkjsError {
    /// No command is configured.
    EmptyCommand,
    /// A number is no decimal of at most 256 bits.
    InvalidDecimal,
    /// There are too few public signals.
    InvalidSignalCount { got: usize },
}

/// Whether a character has Unicode's `White_Space` property.
pub open spec fn is_white_space(c: char) -> bool {
    let n = c as u32;
    ||| 0x9 <= n <= 0xD
    ||| n == 0x20
    ||| n == 0x85
    ||| n == 0xA0
    ||| n == 0x1680
    ||| 0x2000 <= n <= 0x200A
    ||| n == 0x2028
    ||| n == 0x2029
    ||| n == 0x202F
    ||| n == 0x205F
    ||| n == 0x3000
}

/// `char::is_whitespace`: whether a character has Unicode's `White_Space` property, which the
/// Unicode Character Database gives to 25 characters.
#[verifier::external_body]
fn char_is_whitespace(c: char) -> (r: bool)
    ensures
        r == is_white_space(c),
{
    c.is_whitespace()
}

/// The words of a text: its longest runs without white space.
pub open spec fn words_of(text: Seq<char>) -> Seq<Seq<char>>
    decreases text.len(),
{
    if text.len() == 0 {
        Seq::empty()
    } else {
        let front = words_of(text.drop_last());
        let c = text.last();
        if is_white_space(c) {
            front
        } else if text.len() > 1 && !is_white_space(text[text.len() - 2]) {
            front.drop_last().push(front.last().push(c))
        } else {
            front.push(seq![c])
        }
    }
}

/// What each of a list of texts says.
pub open spec fn text_views(list: Seq<String>) -> Seq<Seq<char>> {
    Seq::new(list.len(), |i: int| list[i]@)
}

/// The words of a text, of which the last goes on from `start` where one is under way.
spec fn words_so_far(words: Seq<Seq<char>>, text: Seq<char>, start: int, at: int, in_word: bool) -> Seq<
    Seq<char>,
> {
    if in_word {
        words.push(text.subrange(start, at))
    } else {
        words
    }
}

/// Splits a text into its words.
pub fn split_words(text: &str) -> (r: Vec<String>)
    ensures
        text_views(r@) == words_of(text@),
{
    let len: usize = text.unicode_len();
    let mut words: Vec<String> = Vec::new();
    let mut start: usize = 0;
    let mut in_word: bool = false;
    let mut i: usize = 0;
    assert(text_views(words@) =~= words_of(text@.take(0)));
    while i < len
        invariant
            i <= len,
            len == text@.len(),
            in_word ==> start < i,
            in_word == (i > 0 && !is_white_space(text@[i - 1])),
            words_of(text@.take(i as int)) == words_so_far(
                text_views(words@),
                text@,
                start as int,
                i as int,
                in_word,
            ),
        decreases len - i,
    {
        let c = text.get_char(i);
        let ghost before = text@.take(i as int);
        let ghost after = text@.take(i + 1);
        let ghost words_before = words@;
        proof {
            assert(after.drop_last() =~= before);
            assert(after.last() == c);
            if i > 0 {
                assert(after[after.len() - 2] == text@[i - 1]);
            }
        }
        if char_is_whitespace(c) {
            if in_word {
                let word = text.substring_char(start, i).to_owned();
                let ghost view = word@;
                words.push(word);
                assert(text_views(words@) =~= text_views(words_before).push(view));
            }
            in_word = false;
        } else {
            if !in_word {
                start = i;
                assert(text@.subrange(i as int, i + 1) =~= seq![c]);
            } else {
                assert(text@.subrange(start as int, i + 1) =~= text@.subrange(
                    start as int,
                    i as int,
                ).push(c));
                assert(words_of(before).drop_last() =~= text_views(words@));
            }
            in_word = true;
        }
        i += 1;
    }
    assert(text@.take(len as int) =~= text@);
    if in_word {
        let word = text.substring_char(start, len).to_owned();
        let ghost words_before = words@;
        let ghost view = word@;
        words.push(word);
        assert(text_views(words@) =~= text_views(words_before).push(view));
    }
    words
}

/// The program and the arguments that a configured text stands for, `more` being added to
/// the arguments.
pub open spec fn command_of(configured: Seq<char>, more: Seq<Seq<char>>) -> Result<
    (Seq<char>, Seq<Seq<char>>),
    SnarkjsError,
> {
    let words = words_of(configured);
    if words.len() == 0 {
        Err(SnarkjsError::EmptyCommand)
    } else {
        Ok((words[0], words.skip(1) + more))
    }
}

/// Whether a result is the given program and arguments, or the given error.
pub open spec fn is_command(
    r: Result<(String, Vec<String>), SnarkjsError>,
    want: Result<(Seq<char>, Seq<Seq<char>>), SnarkjsError>,
) -> bool {
    match r {
        Ok((program, args)) => want == Ok::<_, SnarkjsError>((program@, text_views(args@))),
        Err(e) => want == Err::<(Seq<char>, Seq<Seq<char>>), _>(e),
    }
}

/// Appends an argument.
fn push_arg(args: &mut Vec<String>, arg: &str)
    ensures
        text_views(final(args)@) == text_views(old(args)@).push(arg@),
{
    let ghost before = args@;
    let text = arg.to_owned();
    let ghost view = text@;
    args.push(text);
    assert(text_views(args@) =~= text_views(before).push(view));
}

/// Makes proofs of tree updates by the snarkjs command.
#[derive(Debug)]
pub struct SnarkjsProver {
    /// The command, such as `npx snarkjs`.
    pub snarkjs_path: String,
    /// File of the compiled circuit.
    pub wasm_path: String,
    /// File of the proving key.
    pub zkey_path: String,
}

impl SnarkjsProver {
    /// A prover by a command and with a circuit.
    pub fn new(snarkjs_path: &str, wasm_path: &str, zkey_path: &str) -> (r: SnarkjsProver)
        ensures
            r.snarkjs_path@ == snarkjs_path@,
            r.wasm_path@ == wasm_path@,
            r.zkey_path@ == zkey_path@,
    {
        SnarkjsProver {
            snarkjs_path: snarkjs_path.to_owned(),
            wasm_path: wasm_path.to_owned(),
            zkey_path: zkey_path.to_owned(),
        }
    }

    /// The program and the first arguments of the command. Fails exactly where no command
    /// is configured.
    pub fn parse_snarkjs_command(&self) -> (r: Result<(String, Vec<String>), SnarkjsError>)
        ensures
            is_command(r, command_of(self.snarkjs_path@, Seq::empty())),
    {
        let words = split_words(self.snarkjs_path.as_str());
        if words.len() == 0 {
            return Err(SnarkjsError::EmptyCommand);
        }
        let mut args: Vec<String> = Vec::new();
        let mut i: usize = 1;
        while i < words.len()
            invariant
                1 <= i <= words@.len(),
                text_views(args@) == text_views(words@).subrange(1, i as int),
            decreases words@.len() - i,
        {
            let ghost before = args@;
            let word = words[i].as_str().to_owned();
            let ghost view = word@;
            args.push(word);
            i += 1;
            assert(text_views(args@) =~= text_views(before).push(view));
            assert(text_views(words@).subrange(1, i as int) =~= text_views(words@).subrange(
                1,
                i - 1,
            ).push(view));
        }
        assert(text_views(args@) =~= words_of(self.snarkjs_path@).skip(1) + Seq::<
            Seq<char>,
        >::empty());
        Ok((words[0].as_str().to_owned(), args))
    }

    /// The command that computes a witness.
    pub fn witness_command(&self, input_path: &str, witness_path: &str) -> (r: Result<
        (String, Vec<String>),
        SnarkjsError,
    >)
        ensures
            is_command(
                r,
                command_of(
                    self.snarkjs_path@,
                    seq!["wtns"@, "calculate"@, self.wasm_path@, input_path@, witness_path@],
                ),
            ),
    {
        match self.parse_snarkjs_command() {
            Ok((program, first)) => {
                let mut args = first;
                push_arg(&mut args, "wtns");
                push_arg(&mut args, "calculate");
                push_arg(&mut args, self.wasm_path.as_str());
                push_arg(&mut args, input_path);
                push_arg(&mut args, witness_path);
                assert(text_views(args@) =~= words_of(self.snarkjs_path@).skip(1) + seq![
                    "wtns"@,
                    "calculate"@,
                    self.wasm_path@,
                    input_path@,
                    witness_path@,
                ]);
                Ok((program, args))
            },
            Err(e) => Err(e),
        }
    }

    /// The command that computes a proof.
    pub fn prove_command(&self, witness_path: &str, proof_path: &str, public_path: &str) -> (r:
        Result<(String, Vec<String>), SnarkjsError>)
        ensures
            is_command(
                r,
                command_of(
                    self.snarkjs_path@,
                    seq![
                        "groth16"@,
                        "prove"@,
                        self.zkey_path@,
                        witness_path@,
                        proof_path@,
                        public_path@,
                    ],
                ),
            ),
    {
        match self.parse_snarkjs_command() {
            Ok((program, first)) => {
                let mut args = first;
                push_arg(&mut args, "groth16");
                push_arg(&mut args, "prove");
                push_arg(&mut args, self.zkey_path.as_str());
                push_arg(&mut args, witness_path);
                push_arg(&mut args, proof_path);
                push_arg(&mut args, public_path);
                assert(text_views(args@) =~= words_of(self.snarkjs_path@).skip(1) + seq![
                    "groth16"@,
                    "prove"@,
                    self.zkey_path@,
                    witness_path@,
                    proof_path@,
                    public_path@,
                ]);
                Ok((program, args))
            },
            Err(e) => Err(e),
        }
    }
}

/// The decimal digits of a word.
pub fn b256_to_decimal(value: B256) -> (r: String)
    ensures
        r@ == decimal(value.value()),
{
    u256_to_text(&U256::from_be_bytes(&value))
}

/// The number that decimal digits spell. Fails exactly where they spell none of at most
/// 256 bits.
pub fn decimal_to_u256(text: &str) -> (r: Result<U256, SnarkjsError>)
    ensures
        r is Ok <==> (digits_value(text@) is Some && digits_value(text@)->0 < two_256()),
        r matches Ok(v) ==> digits_value(text@) == Some(v@),
        r matches Err(e) ==> e == SnarkjsError::InvalidDecimal,
{
    match u256_from_text(text) {
        Some(v) => Ok(v),
        None => Err(SnarkjsError::InvalidDecimal),
    }
}

/// The word that decimal digits spell. Fails exactly where they spell no number of at most
/// 256 bits.
pub fn decimal_to_b256(text: &str) -> (r: Result<B256, SnarkjsError>)
    ensures
        r is Ok <==> (digits_value(text@) is Some && digits_value(text@)->0 < two_256()),
        r matches Ok(w) ==> w@ == be_bytes(digits_value(text@)->0, 32),
        r matches Err(e) ==> e == SnarkjsError::InvalidDecimal,
{
    match u256_from_text(text) {
        Some(v) => Ok(v.to_be_bytes()),
        None => Err(SnarkjsError::InvalidDecimal),
    }
}

/// A word is recovered from its decimal digits.
pub proof fn law_word_round_trip(value: B256)
    ensures
        digits_value(decimal(value.value())) == Some(value.value()),
        value.value() < two_256(),
        be_bytes(digits_value(decimal(value.value()))->0, 32) == value@,
{
    law_decimal_round_trip(value.value());
    lemma_be_bytes_of_value(value@);
    lemma_word_bound(value@);
}

/// What 32 bytes spell fits in 256 bits.
proof fn lemma_word_bound(bytes: Seq<u8>)
    requires
        bytes.len() == 32,
    ensures
        be_value(bytes) < two_256(),
{
    lemma_be_value_bound(bytes);
    lemma_pow_256_32();
}

/// What the circuit of tree updates takes, in decimal.
#[derive(Debug)]
pub struct UpdateInput {
    pub anchor_before: String,
    pub block_root_before: String,
    pub updates: Vec<String>,
    pub block_index: String,
    pub in_block_index: String,
    pub nonzero_field: String,
    pub block_proofs: Vec<Vec<String>>,
    pub root_path: Vec<String>,
}

/// The decimals of words.
pub open spec fn decimals(words: Seq<B256>) -> Seq<Seq<char>> {
    Seq::new(words.len(), |i: int| decimal(words[i].value()))
}

/// The decimals of words.
fn words_to_decimals(words: &[B256]) -> (r: Vec<String>)
    ensures
        text_views(r@) == decimals(words@),
{
    let mut list: Vec<String> = Vec::new();
    let mut i: usize = 0;
    while i < words.len()
        invariant
            i <= words@.len(),
            list@.len() == i,
            forall|j: int| 0 <= j < i ==> (#[trigger] list@[j])@ == decimal(words@[j].value()),
        decreases words@.len() - i,
    {
        list.push(b256_to_decimal(words[i]));
        i += 1;
    }
    assert(text_views(list@) =~= decimals(words@));
    list
}

/// What the circuit of tree updates takes.
pub fn update_input(
    anchor_before: B256,
    block_root_before: B256,
    leaves: [B256; 3],
    block_index: u64,
    in_block_index: u64,
    nonzero_field: B256,
    block_proofs: [[B256; 16]; 4],
    root_path: [B256; 28],
) -> (r: UpdateInput)
    ensures
        r.anchor_before@ == decimal(anchor_before.value()),
        r.block_root_before@ == decimal(block_root_before.value()),
        text_views(r.updates@) == decimals(leaves@),
        r.block_index@ == decimal(block_index as nat),
        r.in_block_index@ == decimal(in_block_index as nat),
        r.nonzero_field@ == decimal(nonzero_field.value()),
        r.block_proofs@.len() == 4,
        forall|i: int|
            0 <= i < 4 ==> text_views((#[trigger] r.block_proofs@[i])@) == decimals(
                block_proofs@[i]@,
            ),
        text_views(r.root_path@) == decimals(root_path@),
{
    let mut proofs: Vec<Vec<String>> = Vec::new();
    let mut i: usize = 0;
    while i < 4
        invariant
            i <= 4,
            proofs@.len() == i,
            forall|j: int|
                0 <= j < i ==> text_views((#[trigger] proofs@[j])@) == decimals(block_proofs@[j]@),
        decreases 4 - i,
    {
        let row = block_proofs[i];
        proofs.push(words_to_decimals(row.as_slice()));
        i += 1;
    }
    UpdateInput {
        anchor_before: b256_to_decimal(anchor_before),
        block_root_before: b256_to_decimal(block_root_before),
        updates: words_to_decimals(leaves.as_slice()),
        block_index: u256_to_text(&U256::from_u64(block_index)),
        in_block_index: u256_to_text(&U256::from_u64(in_block_index)),
        nonzero_field: b256_to_decimal(nonzero_field),
        block_proofs: proofs,
        root_path: words_to_decimals(root_path.as_slice()),
    }
}

/// A proof as snarkjs writes it down.
#[derive(Debug)]
pub struct SnarkjsProof {
    pub pi_a: Vec<String>,
    pub pi_b: Vec<Vec<String>>,
    pub pi_c: Vec<String>,
}

impl SnarkjsProof {
    /// Whether every coordinate that is read is there.
    pub open spec fn complete(self) -> bool {
        &&& self.pi_a@.len() >= 2
        &&& self.pi_b@.len() >= 2
        &&& self.pi_b@[0]@.len() >= 2
        &&& self.pi_b@[1]@.len() >= 2
        &&& self.pi_c@.len() >= 2
    }
}

/// Whether text spells a number of at most 256 bits, and which.
pub open spec fn spells(text: Seq<char>, value: U256) -> bool {
    digits_value(text) == Some(value@)
}

/// Whether text spells some number of at most 256 bits.
pub open spec fn spells_some(text: Seq<char>) -> bool {
    digits_value(text) is Some && digits_value(text)->0 < two_256()
}

/// The proof in the form that the verifier contract takes. Within each coordinate of the
/// second point the two parts change places.
pub fn convert_proof(raw: &SnarkjsProof) -> (r: Result<Proof, SnarkjsError>)
    requires
        raw.complete(),
    ensures
        r is Ok <==> {
            &&& spells_some(raw.pi_a@[0]@)
            &&& spells_some(raw.pi_a@[1]@)
            &&& spells_some(raw.pi_b@[0]@[0]@)
            &&& spells_some(raw.pi_b@[0]@[1]@)
            &&& spells_some(raw.pi_b@[1]@[0]@)
            &&& spells_some(raw.pi_b@[1]@[1]@)
            &&& spells_some(raw.pi_c@[0]@)
            &&& spells_some(raw.pi_c@[1]@)
        },
        r matches Ok(p) ==> {
            &&& spells(raw.pi_a@[0]@, p.p_a@[0])
            &&& spells(raw.pi_a@[1]@, p.p_a@[1])
            &&& spells(raw.pi_b@[0]@[1]@, p.p_b@[0]@[0])
            &&& spells(raw.pi_b@[0]@[0]@, p.p_b@[0]@[1])
            &&& spells(raw.pi_b@[1]@[1]@, p.p_b@[1]@[0])
            &&& spells(raw.pi_b@[1]@[0]@, p.p_b@[1]@[1])
            &&& spells(raw.pi_c@[0]@, p.p_c@[0])
            &&& spells(raw.pi_c@[1]@, p.p_c@[1])
        },
        r matches Err(e) ==> e == SnarkjsError::InvalidDecimal,
{
    let a0 = decimal_to_u256(raw.pi_a[0].as_str());
    let a1 = decimal_to_u256(raw.pi_a[1].as_str());
    let b00 = decimal_to_u256(raw.pi_b[0][1].as_str());
    let b01 = decimal_to_u256(raw.pi_b[0][0].as_str());
    let b10 = decimal_to_u256(raw.pi_b[1][1].as_str());
    let b11 = decimal_to_u256(raw.pi_b[1][0].as_str());
    let c0 = decimal_to_u256(raw.pi_c[0].as_str());
    let c1 = decimal_to_u256(raw.pi_c[1].as_str());
    match (a0, a1, b00, b01, b10, b11, c0, c1) {
        (Ok(a0), Ok(a1), Ok(b00), Ok(b01), Ok(b10), Ok(b11), Ok(c0), Ok(c1)) => Ok(
            Proof { p_a: [a0, a1], p_b: [[b00, b01], [b10, b11]], p_c: [c0, c1] },
        ),
        _ => Err(SnarkjsError::InvalidDecimal),
    }
}

/// The anchor after an update, which is the first of the public signals. There have to be
/// six.
pub fn anchor_from_signals(signals: &[String]) -> (r: Result<B256, SnarkjsError>)
    ensures
        r is Ok <==> signals@.len() >= 6 && spells_some(signals@[0]@),
        r matches Ok(w) ==> w@ == be_bytes(digits_value(signals@[0]@)->0, 32),
        r matches Err(e) ==> e == (if signals@.len() >= 6 {
            SnarkjsError::InvalidDecimal
        } else {
            SnarkjsError::InvalidSignalCount { got: signals@.len() as usize }
        }),
{
    if signals.len() >= 6 {
        decimal_to_b256(signals[0].as_str())
    } else {
        Err(SnarkjsError::InvalidSignalCount { got: signals.len() })
    }
}

/// Text without white space is one word, and white space between two texts parts their words: the
/// words of the whole are those of the one and then those of the other.
pub proof fn law_white_space_parts_words(front: Seq<char>, space: char, back: Seq<char>)
    requires
        is_white_space(space),
    ensures
        words_of(front + seq![space] + back) == words_of(front) + words_of(back),
        words_of(Seq::empty()).len() == 0,
        front.len() > 0 && (forall|i: int| 0 <= i < front.len() ==> !is_white_space(#[trigger] front[i]))
            ==> words_of(front) == seq![front],
    decreases back.len(),
{
    let whole = front + seq![space] + back;
    if back.len() == 0 {
        assert(whole.drop_last() =~= front);
        assert(whole.last() == space);
        assert(words_of(front) + words_of(back) =~= words_of(front));
    } else {
        let less = back.drop_last();
        law_white_space_parts_words(front, space, less);
        assert(whole.drop_last() =~= front + seq![space] + less);
        let c = back.last();
        let before = words_of(front) + words_of(less);
        if is_white_space(c) {
        } else if back.len() > 1 && !is_white_space(back[back.len() - 2]) {
            assert(whole[whole.len() - 2] == back[back.len() - 2]);
            lemma_word_under_way(less);
            assert(before.drop_last() =~= words_of(front) + words_of(less).drop_last());
            assert(words_of(whole) =~= words_of(front) + words_of(back));
        } else {
            if back.len() > 1 {
                assert(whole[whole.len() - 2] == back[back.len() - 2]);
            } else {
                assert(whole[whole.len() - 2] == space);
            }
            assert(words_of(whole) =~= words_of(front) + words_of(back));
        }
    }
    if front.len() > 0 && (forall|i: int|
        0 <= i < front.len() ==> !is_white_space(#[trigger] front[i])) {
        lemma_one_word(front);
    }
}

/// Text that ends within a word has one.
proof fn lemma_word_under_way(text: Seq<char>)
    requires
        text.len() > 0,
        !is_white_space(text.last()),
    ensures
        words_of(text).len() > 0,
    decreases text.len(),
{
    if text.len() > 1 && !is_white_space(text[text.len() - 2]) {
        lemma_word_under_way(text.drop_last());
    }
}

/// Text without white space is one word.
proof fn lemma_one_word(text: Seq<char>)
    requires
        text.len() > 0,
        forall|i: int| 0 <= i < text.len() ==> !is_white_space(#[trigger] text[i]),
    ensures
        words_of(text) == seq![text],
    decreases text.len(),
{
    let n = text.len() as int;
    assert(!is_white_space(text[n - 1]));
    if n > 1 {
        assert(!is_white_space(text[n - 2]));
        let front = text.drop_last();
        assert forall|i: int| 0 <= i < front.len() implies !is_white_space(#[trigger] front[i]) by {
            assert(front[i] == text[i]);
        }
        lemma_one_word(front);
        assert(front.push(text.last()) =~= text);
        assert(words_of(text) =~= seq![text]);
    } else {
        assert(words_of(text.drop_last()).len() == 0);
        assert(words_of(text) =~= seq![seq![text.last()]]);
        assert(seq![text.last()] =~= text);
    }
}

/// A command is the first word of what is configured, with the other words and then the arguments
/// of the task; without a word there is none.
pub proof fn law_command_starts_with_what_is_configured(
    configured: Seq<char>,
    more: Seq<Seq<char>>,
    i: int,
)
    ensures
        command_of(configured, more) is Err <==> words_of(configured).len() == 0,
        command_of(configured, more) matches Ok((program, args)) ==> {
            let words = words_of(configured);
            &&& program == words[0]
            &&& args.len() + 1 == words.len() + more.len()
            &&& 1 <= i < words.len() ==> args[i - 1] == words[i]
            &&& 0 <= i < more.len() ==> args[words.len() - 1 + i] == more[i]
        },
{
}

/// Words are handed on one by one, each as the decimal of the number that it spells.
pub proof fn law_decimals_one_by_one(words: Seq<B256>, i: int)
    requires
        0 <= i < words.len(),
    ensures
        decimals(words).len() == words.len(),
        digits_value(decimals(words)[i]) == Some(be_value(words[i]@)),
{
    law_decimal_round_trip(be_value(words[i]@));
}

} // verus!
