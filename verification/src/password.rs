//! Typing a password at the terminal: how each key edits the password and what the prompt shows.
//!
//! The password is held as UTF-8 bytes; its characters are their decoding.
use bstr::{ByteSlice, ByteVec};
use vstd::prelude::*;
use vstd::utf8::{decode_utf8, encode_utf8, valid_utf8};

verus! {

/// A key pressed while the password is typed.
#[derive(Clone, Copy, Debug, PartialEq, Eq, Structural)]
pub enum KeyInput {
    Enter,
    Char(char),
    Backspace,
    Esc,
    /// Any other key.
    Other,
}

/// What to do after a key.
#[derive(Clone, Copy, Debug, PartialEq, Eq, Structural)]
pub enum PasswordAction {
    /// Keep reading keys.
    Continue,
    /// The password is complete.
    Submit,
    /// The user gave up: clear the prompt and leave.
    Cancel,
}

/// The characters of the password after a key: a character is appended, backspace removes the
/// last character if there is one, other keys leave it as it is.
pub open spec fn next_password(chars: Seq<char>, key: KeyInput) -> Seq<char> {
    match key {
        KeyInput::Char(c) => chars.push(c),
        KeyInput::Backspace => if chars.len() == 0 {
            chars
        } else {
            chars.drop_last()
        },
        _ => chars,
    }
}

/// What a key asks for.
pub open spec fn key_action(key: KeyInput) -> PasswordAction {
    match key {
        KeyInput::Enter => PasswordAction::Submit,
        KeyInput::Esc => PasswordAction::Cancel,
        _ => PasswordAction::Continue,
    }
}

/// Appends the UTF-8 encoding of `c` to `bytes`, with `char::encode_utf8`.
///
/// Trusted: `encode_utf8` writes the UTF-8 encoding of the character.
#[verifier::external_body]
fn push_char_utf8(bytes: &mut Vec<u8>, c: char)
    ensures
        final(bytes)@ == old(bytes)@ + encode_utf8(seq![c]),
{
    let mut buf = [0u8; 4];
    bytes.extend_from_slice(c.encode_utf8(&mut buf).as_bytes());
}

/// Removes the last character of UTF-8 bytes with `bstr::ByteVec::pop_char`.
///
/// Trusted: on valid UTF-8, `pop_char` removes the bytes of the last encoded character, and
/// nothing when there is none.
#[verifier::external_body]
fn pop_last_char(bytes: &mut Vec<u8>)
    requires
        valid_utf8(old(bytes)@),
    ensures
        decode_utf8(old(bytes)@).len() == 0 ==> final(bytes)@ == old(bytes)@,
        decode_utf8(old(bytes)@).len() > 0 ==> final(bytes)@ == encode_utf8(
            decode_utf8(old(bytes)@).drop_last(),
        ),
{
    bytes.pop_char();
}

/// Counts the characters of UTF-8 bytes with `bstr::ByteSlice::chars`.
///
/// Trusted: on valid UTF-8, `chars` yields each encoded character once.
#[verifier::external_body]
fn count_chars(bytes: &[u8]) -> (n: usize)
    requires
        valid_utf8(bytes@),
    ensures
        n == decode_utf8(bytes@).len(),
{
    bytes.chars().count()
}

/// Encoding a sequence of characters followed by one more gives the encoding of the sequence
/// followed by that of the character.
proof fn lemma_encode_push(chars: Seq<char>, c: char)
    ensures
        encode_utf8(chars.push(c)) == encode_utf8(chars) + encode_utf8(seq![c]),
    decreases chars.len(),
{
    if chars.len() == 0 {
        assert(chars.push(c) =~= seq![c]);
        assert(encode_utf8(chars) =~= Seq::<u8>::empty());
        assert(encode_utf8(chars) + encode_utf8(seq![c]) =~= encode_utf8(seq![c]));
    } else {
        lemma_encode_push(chars.drop_first(), c);
        assert(chars.push(c).drop_first() =~= chars.drop_first().push(c));
        assert(chars.push(c)[0] == chars[0]);
        let head = vstd::utf8::encode_scalar(chars[0] as u32);
        assert(encode_utf8(chars.push(c)) == head + encode_utf8(chars.drop_first().push(c)));
        assert(encode_utf8(chars) == head + encode_utf8(chars.drop_first()));
        assert(head + (encode_utf8(chars.drop_first()) + encode_utf8(seq![c])) =~= (head
            + encode_utf8(chars.drop_first())) + encode_utf8(seq![c]));
    }
}

/// Applies a key to the password being typed and tells what to do next.
pub fn password_key(password: &mut Vec<u8>, key: KeyInput) -> (action: PasswordAction)
    requires
        valid_utf8(old(password)@),
    ensures
        valid_utf8(final(password)@),
        final(password)@ == encode_utf8(next_password(decode_utf8(old(password)@), key)),
        decode_utf8(final(password)@) == next_password(decode_utf8(old(password)@), key),
        action == key_action(key),
{
    let ghost chars = decode_utf8(password@);
    proof {
        vstd::utf8::decode_utf8_encode_utf8(password@);
    }
    let action = match key {
        KeyInput::Enter => PasswordAction::Submit,
        KeyInput::Char(c) => {
            push_char_utf8(password, c);
            proof {
                lemma_encode_push(chars, c);
            }
            PasswordAction::Continue
        },
        KeyInput::Backspace => {
            pop_last_char(password);
            PasswordAction::Continue
        },
        KeyInput::Esc => PasswordAction::Cancel,
        KeyInput::Other => PasswordAction::Continue,
    };
    proof {
        vstd::utf8::encode_utf8_valid_utf8(next_password(chars, key));
        vstd::utf8::encode_utf8_decode_utf8(next_password(chars, key));
    }
    action
}

/// Typing a character and then erasing it leaves the password as it was.
pub proof fn law_char_then_backspace(chars: Seq<char>, c: char)
    ensures
        next_password(next_password(chars, KeyInput::Char(c)), KeyInput::Backspace) == chars,
{
    assert(chars.push(c).drop_last() =~= chars);
}

/// Each key does what its name says: a character is appended at the end and the rest kept,
/// backspace removes the last character and keeps the others, and Enter, Escape and any other
/// key leave the password as it is; Enter submits, Escape cancels, the others go on reading.
pub proof fn law_password_keys(chars: Seq<char>, c: char)
    ensures
        next_password(chars, KeyInput::Char(c)).len() == chars.len() + 1,
        next_password(chars, KeyInput::Char(c)).last() == c,
        next_password(chars, KeyInput::Char(c)).take(chars.len() as int) == chars,
        chars.len() > 0 ==> next_password(chars, KeyInput::Backspace).len() == chars.len() - 1,
        chars.len() > 0 ==> next_password(chars, KeyInput::Backspace) == chars.take(
            chars.len() - 1,
        ),
        chars.len() == 0 ==> next_password(chars, KeyInput::Backspace) == chars,
        next_password(chars, KeyInput::Enter) == chars,
        next_password(chars, KeyInput::Esc) == chars,
        next_password(chars, KeyInput::Other) == chars,
        key_action(KeyInput::Enter) == PasswordAction::Submit,
        key_action(KeyInput::Esc) == PasswordAction::Cancel,
        key_action(KeyInput::Char(c)) == PasswordAction::Continue,
        key_action(KeyInput::Backspace) == PasswordAction::Continue,
        key_action(KeyInput::Other) == PasswordAction::Continue,
{
    assert(chars.push(c).take(chars.len() as int) =~= chars);
}

/// The prompt line is the label `Enter password: ` followed by exactly one star per character.
pub proof fn law_prompt_text(len: nat)
    ensures
        prompt_text(len).len() == 16 + len,
        prompt_text(len).take(16) == "Enter password: "@,
        forall|i: int| 16 <= i < 16 + len ==> #[trigger] prompt_text(len)[i] == '*',
{
    reveal_strlit("Enter password: ");
    assert(prompt_text(len).take(16) =~= "Enter password: "@);
}

/// Number of characters typed so far.
pub fn password_length(password: &Vec<u8>) -> (n: usize)
    requires
        valid_utf8(password@),
    ensures
        n == decode_utf8(password@).len(),
{
    count_chars(password.as_slice())
}

/// The prompt line shown while `len` characters are typed: the label and one star per character.
pub open spec fn prompt_text(len: nat) -> Seq<char> {
    seq!['E', 'n', 't', 'e', 'r', ' ', 'p', 'a', 's', 's', 'w', 'o', 'r', 'd', ':', ' '] + Seq::new(
        len,
        |i: int| '*',
    )
}

/// The prompt line shown while `len` characters are typed.
pub fn render_password_input(len: usize) -> (line: String)
    ensures
        line@ == prompt_text(len as nat),
{
    let label = "Enter password: ";
    proof {
        reveal_strlit("Enter password: ");
    }
    let mut line = String::from_str(label);
    let star = "*";
    proof {
        reveal_strlit("*");
    }
    let mut i: usize = 0;
    while i < len
        invariant
            i <= len,
            star@ == seq!['*'],
            line@ == prompt_text(i as nat),
        decreases len - i,
    {
        line.append(star);
        i = i + 1;
        assert(line@ =~= prompt_text(i as nat));
    }
    line
}

} // verus!
