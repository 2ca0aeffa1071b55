//! Key codes as the TV's remote channel wants them: `KEY_` and upper case.
use vstd::prelude::*;
use crate::text::{chars_of, padded, push_padded, range_is};

verus! {

/// `str::to_uppercase`: the Unicode upper-case mapping of a string.
pub uninterp spec fn uppercase(s: Seq<char>) -> Seq<char>;

/// `str::to_uppercase` of the standard library; the result is the Unicode
/// upper-case mapping of `s`, which is named here and not spelled out.
#[verifier::external_body]
fn to_uppercase(s: &str) -> (r: String)
    ensures
        r@ == uppercase(s@),
{
    s.to_uppercase()
}

/// Whether `s` already begins with `KEY_`.
pub open spec fn has_key_prefix(s: Seq<char>) -> bool {
    s.len() >= 4 && s.take(4) == "KEY_"@
}

/// An upper-cased code with `KEY_` put in front where it is missing.
pub open spec fn key_code(s: Seq<char>) -> Seq<char> {
    if has_key_prefix(s) {
        s
    } else {
        "KEY_"@ + s
    }
}

/// Put `KEY_` in front of an (already upper-cased) code unless it is there.
pub fn with_key_prefix(code: String) -> (r: String)
    ensures
        r@ == key_code(code@),
{
    let v = chars_of(code.as_str());
    if v.len() >= 4 && range_is(&v, 0, 4, "KEY_") {
        assert(v@.subrange(0, 4) == v@.take(4));
        code
    } else {
        proof {
            if code@.len() >= 4 {
                assert(v@.subrange(0, 4) == v@.take(4));
            }
        }
        let mut r = String::from_str("KEY_");
        r.append(code.as_str());
        r
    }
}

/// Normalize user input into a KEY_* code: uppercase, prefix if missing.
pub fn normalize(input: &str) -> (r: String)
    ensures
        r@ == key_code(uppercase(input@)),
{
    with_key_prefix(to_uppercase(input))
}

/// Every normalized code begins with `KEY_`, and normalizing it again
/// changes nothing.
pub proof fn lemma_key_code(s: Seq<char>)
    ensures
        has_key_prefix(key_code(s)),
        key_code(key_code(s)) == key_code(s),
{
    reveal_strlit("KEY_");
    if !has_key_prefix(s) {
        assert(("KEY_"@ + s).take(4) =~= "KEY_"@);
    }
}

} // verus!

verus! {

/// The curated key codes with what they do, in listing order.
pub open spec fn common_key_table() -> Seq<(Seq<char>, Seq<char>)> {
    seq![
        ("KEY_POWER"@, "power toggle"@),
        ("KEY_VOLUP"@, "volume up"@),
        ("KEY_VOLDOWN"@, "volume down"@),
        ("KEY_MUTE"@, "mute toggle"@),
        ("KEY_HOME"@, "smart hub home"@),
        ("KEY_MENU"@, "menu"@),
        ("KEY_RETURN"@, "back"@),
        ("KEY_ENTER"@, "select"@),
        ("KEY_UP"@, "navigate up"@),
        ("KEY_DOWN"@, "navigate down"@),
        ("KEY_LEFT"@, "navigate left"@),
        ("KEY_RIGHT"@, "navigate right"@),
        ("KEY_CHUP"@, "channel up"@),
        ("KEY_CHDOWN"@, "channel down"@),
        ("KEY_SOURCE"@, "input source"@),
        ("KEY_HDMI"@, "HDMI input"@),
        ("KEY_0"@, "digit 0"@),
        ("KEY_1"@, "digit 1"@),
        ("KEY_2"@, "digit 2"@),
        ("KEY_3"@, "digit 3"@),
        ("KEY_4"@, "digit 4"@),
        ("KEY_5"@, "digit 5"@),
        ("KEY_6"@, "digit 6"@),
        ("KEY_7"@, "digit 7"@),
        ("KEY_8"@, "digit 8"@),
        ("KEY_9"@, "digit 9"@),
        ("KEY_PLAY"@, "play"@),
        ("KEY_PAUSE"@, "pause"@),
        ("KEY_STOP"@, "stop"@),
    ]
}

/// Curated common key codes (the TV accepts many more; any KEY_* works).
pub fn common_keys() -> (r: Vec<(&'static str, &'static str)>)
    ensures
        r@.len() == common_key_table().len(),
        forall|i: int|
            0 <= i < r@.len() ==> (#[trigger] r@[i]).0@ == common_key_table()[i].0 && r@[i].1@
                == common_key_table()[i].1,
{
    vec![
        ("KEY_POWER", "power toggle"),
        ("KEY_VOLUP", "volume up"),
        ("KEY_VOLDOWN", "volume down"),
        ("KEY_MUTE", "mute toggle"),
        ("KEY_HOME", "smart hub home"),
        ("KEY_MENU", "menu"),
        ("KEY_RETURN", "back"),
        ("KEY_ENTER", "select"),
        ("KEY_UP", "navigate up"),
        ("KEY_DOWN", "navigate down"),
        ("KEY_LEFT", "navigate left"),
        ("KEY_RIGHT", "navigate right"),
        ("KEY_CHUP", "channel up"),
        ("KEY_CHDOWN", "channel down"),
        ("KEY_SOURCE", "input source"),
        ("KEY_HDMI", "HDMI input"),
        ("KEY_0", "digit 0"),
        ("KEY_1", "digit 1"),
        ("KEY_2", "digit 2"),
        ("KEY_3", "digit 3"),
        ("KEY_4", "digit 4"),
        ("KEY_5", "digit 5"),
        ("KEY_6", "digit 6"),
        ("KEY_7", "digit 7"),
        ("KEY_8", "digit 8"),
        ("KEY_9", "digit 9"),
        ("KEY_PLAY", "play"),
        ("KEY_PAUSE", "pause"),
        ("KEY_STOP", "stop"),
    ]
}

/// Every curated code is already normalized: it begins with `KEY_`.
pub proof fn lemma_common_keys_normalized()
    ensures
        common_key_table().len() == 29,
        forall|i: int|
            0 <= i < common_key_table().len() ==> has_key_prefix(
                #[trigger] common_key_table()[i].0,
            ),
{
    reveal_strlit("KEY_");
        reveal_strlit("KEY_POWER");
        reveal_strlit("KEY_VOLUP");
        reveal_strlit("KEY_VOLDOWN");
        reveal_strlit("KEY_MUTE");
        reveal_strlit("KEY_HOME");
        reveal_strlit("KEY_MENU");
        reveal_strlit("KEY_RETURN");
        reveal_strlit("KEY_ENTER");
        reveal_strlit("KEY_UP");
        reveal_strlit("KEY_DOWN");
        reveal_strlit("KEY_LEFT");
        reveal_strlit("KEY_RIGHT");
        reveal_strlit("KEY_CHUP");
        reveal_strlit("KEY_CHDOWN");
        reveal_strlit("KEY_SOURCE");
        reveal_strlit("KEY_HDMI");
        reveal_strlit("KEY_0");
        reveal_strlit("KEY_1");
        reveal_strlit("KEY_2");
        reveal_strlit("KEY_3");
        reveal_strlit("KEY_4");
        reveal_strlit("KEY_5");
        reveal_strlit("KEY_6");
        reveal_strlit("KEY_7");
        reveal_strlit("KEY_8");
        reveal_strlit("KEY_9");
        reveal_strlit("KEY_PLAY");
        reveal_strlit("KEY_PAUSE");
        reveal_strlit("KEY_STOP");
    assert forall|i: int| 0 <= i < common_key_table().len() implies has_key_prefix(
        #[trigger] common_key_table()[i].0,
    ) by {
        assert(common_key_table()[i].0.take(4) =~= "KEY_"@);
    }
}

/// The `keys` listing: each code padded to twelve columns, two spaces, and
/// what it does.
pub fn key_listing() -> (lines: Vec<String>)
    ensures
        lines@.len() == common_key_table().len(),
        forall|i: int|
            0 <= i < lines@.len() ==> (#[trigger] lines@[i])@ == padded(common_key_table()[i].0, 12)
                + "  "@ + common_key_table()[i].1,
{
    let keys = common_keys();
    let mut lines: Vec<String> = Vec::new();
    let mut i: usize = 0;
    while i < keys.len()
        invariant
            i <= keys@.len(),
            keys@.len() == common_key_table().len(),
            forall|j: int|
                0 <= j < keys@.len() ==> (#[trigger] keys@[j]).0@ == common_key_table()[j].0
                    && keys@[j].1@ == common_key_table()[j].1,
            lines@.len() == i,
            forall|j: int|
                0 <= j < i ==> (#[trigger] lines@[j])@ == padded(common_key_table()[j].0, 12)
                    + "  "@ + common_key_table()[j].1,
        decreases keys@.len() - i,
    {
        let (key, description) = keys[i];
        let mut line = String::new();
        push_padded(&mut line, key, 12);
        line.append("  ");
        line.append(description);
        assert(keys@[i as int].0@ == common_key_table()[i as int].0);
        assert(line@ =~= padded(common_key_table()[i as int].0, 12) + "  "@ + common_key_table()[
            i as int].1);
        lines.push(line);
        i = i + 1;
    }
    lines
}

} // verus!
