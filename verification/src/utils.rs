//! Small operations on texts that the commands need: masking a password,
//! splitting `key=value`, and the arguments and variables for running a
//! command with a secret.

use vstd::prelude::*;
use vstd::string::{StringExecFns, StringSliceAdditionalSpecFns};
use vstd::utf8::{decode_utf8, encode_utf8, is_char_boundary};

use crate::error::BunkerError;
use crate::primitives::{text_of, to_uppercase, trim, trimmed, uppercase};
use crate::text::chars_of;

verus! {

/// A run of `n` asterisks.
pub open spec fn stars(n: nat) -> Seq<char> {
    Seq::new(n, |i: int| '*')
}

/// A password with all but its first and last `show` bytes replaced by
/// asterisks, one for each byte; all of it is replaced where it is not
/// longer than twice `show`.
pub open spec fn masked(password: Seq<char>, show: nat) -> Seq<char> {
    let bytes = encode_utf8(password);
    if bytes.len() <= 2 * show {
        stars(bytes.len())
    } else {
        decode_utf8(bytes.take(show as int)) + stars((bytes.len() - 2 * show) as nat) + decode_utf8(
            bytes.skip(bytes.len() - show),
        )
    }
}

/// Whether a password can be masked with `show` bytes shown at each end:
/// twice `show` can be computed and, where the password is longer than
/// that, no character is cut in two.
pub open spec fn can_mask(password: Seq<char>, show: nat) -> bool {
    let bytes = encode_utf8(password);
    &&& 2 * show <= usize::MAX
    &&& bytes.len() > 2 * show ==> is_char_boundary(bytes, show as int) && is_char_boundary(
        bytes,
        bytes.len() - show,
    )
}

/// The position of the first `c` in a text, if there is one.
pub open spec fn first_index(text: Seq<char>, c: char) -> Option<int>
    decreases text.len(),
{
    if text.len() == 0 {
        None
    } else {
        match first_index(text.drop_last(), c) {
            Some(i) => Some(i),
            None => if text.last() == c {
                Some(text.len() - 1)
            } else {
                None
            },
        }
    }
}

/// What splitting `key=value` gives: what stands before the first `=` and
/// what stands behind it, each without the white space around it; nothing
/// where there is no `=`.
pub open spec fn key_value(input: Seq<char>) -> Option<(Seq<char>, Seq<char>)> {
    match first_index(input, '=') {
        None => None,
        Some(i) => Some((trimmed(input.take(i)), trimmed(input.skip(i + 1)))),
    }
}

/// The name of the environment variable for a key: the key in uppercase
/// with `_` in the place of each `/` and `-`.
pub open spec fn env_name(key: Seq<char>) -> Seq<char> {
    uppercase(key).map_values(
        |c: char|
            if c == '/' || c == '-' {
                '_'
            } else {
                c
            },
    )
}

/// A run of `n` asterisks.
pub fn make_stars(n: usize) -> (r: String)
    ensures
        r@ == stars(n as nat),
{
    let mut out = String::new();
    let mut i: usize = 0;
    proof {
        reveal_strlit("*");
    }
    while i < n
        invariant
            i <= n,
            out@ == stars(i as nat),
            "*"@ == seq!['*'],
        decreases n - i,
    {
        out.append("*");
        assert(out@ =~= stars((i + 1) as nat));
        i += 1;
    }
    out
}

/// Masks a password for display.
pub fn mask_password(password: &str, show_chars: usize) -> (r: String)
    requires
        can_mask(password@, show_chars as nat),
    ensures
        r@ == masked(password@, show_chars as nat),
{
    let n: usize = password.as_bytes().len();
    if n <= show_chars * 2 {
        return make_stars(n);
    }
    let (start, _) = password.split_at(show_chars);
    let (_, end) = password.split_at(n - show_chars);
    let mut out = String::from_str(start);
    let middle = make_stars(n - show_chars * 2);
    out.append(middle.as_str());
    out.append(end);
    proof {
        broadcast use vstd::utf8::encode_utf8_decode_utf8;

        let bytes = encode_utf8(password@);
        assert(bytes.subrange(0, show_chars as int) =~= bytes.take(show_chars as int));
        assert(bytes.subrange(n - show_chars, bytes.len() as int) =~= bytes.skip(n - show_chars));
        vstd::utf8::encode_utf8_valid_utf8(start@);
        vstd::utf8::encode_utf8_valid_utf8(end@);
        assert(start@ == decode_utf8(encode_utf8(start@)));
        assert(end@ == decode_utf8(encode_utf8(end@)));
    }
    out
}

/// The position of the first `c` in a text, if there is one.
pub fn find_char(text: &Vec<char>, c: char) -> (r: Option<usize>)
    ensures
        match r {
            Some(i) => first_index(text@, c) == Some(i as int) && i < text@.len(),
            None => first_index(text@, c) is None,
        },
{
    let mut i: usize = 0;
    assert(text@.take(0) =~= Seq::empty());
    while i < text.len()
        invariant
            i <= text.len(),
            first_index(text@.take(i as int), c) is None,
        decreases text.len() - i,
    {
        proof {
            assert(text@.take(i + 1).drop_last() =~= text@.take(i as int));
        }
        if text[i] == c {
            proof {
                lemma_first_index_stays(text@, c, i + 1);
            }
            return Some(i);
        }
        i += 1;
    }
    assert(text@.take(text.len() as int) =~= text@);
    None
}

/// The first `c` among the first `n` characters of a text, where there is
/// one, is the first in the whole text.
pub proof fn lemma_first_index_stays(text: Seq<char>, c: char, n: int)
    requires
        0 <= n <= text.len(),
        first_index(text.take(n), c) is Some,
    ensures
        first_index(text, c) == first_index(text.take(n), c),
    decreases text.len() - n,
{
    if n < text.len() {
        assert(text.take(n + 1).drop_last() =~= text.take(n));
        lemma_first_index_stays(text, c, n + 1);
    } else {
        assert(text.take(n) =~= text);
    }
}

/// Splits `key=value` at the first `=` and trims both sides. Fails where
/// there is no `=`.
pub fn parse_key_value(input: &str) -> (r: Result<(String, String), BunkerError>)
    ensures
        match r {
            Ok((key, value)) => key_value(input@) == Some((key@, value@)),
            Err(e) => key_value(input@) is None && (e matches BunkerError::Other(m) && m@
                == "Invalid format. Expected: key=value"@),
        },
{
    let chars = chars_of(input);
    match find_char(&chars, '=') {
        None => Err(BunkerError::Other("Invalid format. Expected: key=value".to_string())),
        Some(at) => {
            let mut key = chars.clone();
            key.truncate(at);
            let mut value: Vec<char> = Vec::new();
            let mut i: usize = at + 1;
            while i < chars.len()
                invariant
                    at + 1 <= i <= chars.len(),
                    value@ == chars@.subrange(at + 1, i as int),
                decreases chars.len() - i,
            {
                value.push(chars[i]);
                assert(chars@.subrange(at + 1, i + 1) =~= chars@.subrange(at + 1, i as int).push(
                    chars@[i as int],
                ));
                i += 1;
            }
            assert(key@ =~= chars@.take(at as int));
            assert(value@ =~= chars@.skip(at + 1));
            let key_text = text_of(&key);
            let value_text = text_of(&value);
            Ok((trim(key_text.as_str()).to_string(), trim(value_text.as_str()).to_string()))
        },
    }
}

/// The name of the environment variable for a key.
pub fn env_var_name(key: &str) -> (r: String)
    ensures
        r@ == env_name(key@),
{
    let upper = to_uppercase(key);
    let chars = chars_of(upper.as_str());
    let mut out: Vec<char> = Vec::new();
    let mut i: usize = 0;
    while i < chars.len()
        invariant
            i <= chars.len(),
            out@.len() == i,
            forall|k: int|
                0 <= k < i ==> out@[k] == (if chars@[k] == '/' || chars@[k] == '-' {
                    '_'
                } else {
                    chars@[k]
                }),
        decreases chars.len() - i,
    {
        let c: char = chars[i];
        if c == '/' || c == '-' {
            out.push('_');
        } else {
            out.push(c);
        }
        i += 1;
    }
    assert(out@ =~= env_name(key@));
    text_of(&out)
}

/// The arguments of a command with the secret in the place of each
/// argument that is `{}` or `$PASSWORD`.
pub open spec fn with_secret(args: Seq<Seq<char>>, secret: Seq<char>) -> Seq<Seq<char>> {
    args.map_values(
        |arg: Seq<char>|
            if arg == "{}"@ || arg == "$PASSWORD"@ {
                secret
            } else {
                arg
            },
    )
}

/// The arguments to run a command with: all but the name of the program,
/// as they are where the secret goes into the environment, else with the
/// secret in the place of each argument that stands for it.
pub fn command_args(command: &Vec<String>, secret: &str, through_env: bool) -> (r: Vec<String>)
    requires
        command@.len() > 0,
    ensures
        crate::types::texts(r@) == if through_env {
            crate::types::texts(command@).skip(1)
        } else {
            with_secret(crate::types::texts(command@).skip(1), secret@)
        },
{
    let mut out: Vec<String> = Vec::new();
    let mut i: usize = 1;
    while i < command.len()
        invariant
            1 <= i <= command.len(),
            out@.len() == i - 1,
            forall|k: int|
                0 <= k < i - 1 ==> out@[k]@ == (if through_env {
                    command@[k + 1]@
                } else if command@[k + 1]@ == "{}"@ || command@[k + 1]@ == "$PASSWORD"@ {
                    secret@
                } else {
                    command@[k + 1]@
                }),
        decreases command.len() - i,
    {
        let arg = command[i].as_str();
        if !through_env && (crate::text::chars_equal(arg, "{}") || crate::text::chars_equal(
            arg,
            "$PASSWORD",
        )) {
            out.push(secret.to_string());
        } else {
            out.push(arg.to_string());
        }
        i += 1;
    }
    proof {
        let args = crate::types::texts(command@).skip(1);
        if through_env {
            assert(crate::types::texts(out@) =~= args);
        } else {
            assert(crate::types::texts(out@) =~= with_secret(args, secret@));
        }
    }
    out
}

} // verus!
