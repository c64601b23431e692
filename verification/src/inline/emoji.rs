//! Emoji shortcodes `:name:`.
//!
//! A shortcode name is made of lower-case ASCII letters, digits, `_`, `+` and `-`,
//! with a colon on each side, so `12:30:45` is not taken for one: `:30:` is not in
//! the table. The table holds the commonly used GitHub shortcodes; unknown names
//! are left alone.

use vstd::prelude::*;
use crate::ast::params::{ParamV, spec_get};
use crate::inline::entities::table_lookup;
use crate::text::{chars_to_string, copy_range, str_chars};

verus! {

pub const EMOJI: [(&'static str, &'static str); 190] = [
    ("smile", "😄"),
    ("smiley", "😃"),
    ("grin", "😁"),
    ("laughing", "😆"),
    ("satisfied", "😆"),
    ("sweat_smile", "😅"),
    ("joy", "😂"),
    ("rofl", "🤣"),
    ("wink", "😉"),
    ("blush", "😊"),
    ("heart_eyes", "😍"),
    ("kissing_heart", "😘"),
    ("thinking", "🤔"),
    ("neutral_face", "😐"),
    ("expressionless", "😑"),
    ("unamused", "😒"),
    ("sweat", "😓"),
    ("pensive", "😔"),
    ("confused", "😕"),
    ("upside_down_face", "🙃"),
    ("smirk", "😏"),
    ("sunglasses", "😎"),
    ("cry", "😢"),
    ("sob", "😭"),
    ("angry", "😠"),
    ("rage", "😡"),
    ("scream", "😱"),
    ("fearful", "😨"),
    ("sleeping", "😴"),
    ("mask", "😷"),
    ("nauseated_face", "🤢"),
    ("poop", "💩"),
    ("hankey", "💩"),
    ("skull", "💀"),
    ("ghost", "👻"),
    ("alien", "👽"),
    ("robot", "🤖"),
    ("see_no_evil", "🙈"),
    ("hear_no_evil", "🙉"),
    ("speak_no_evil", "🙊"),
    ("wave", "👋"),
    ("thumbsup", "👍"),
    ("+1", "👍"),
    ("thumbsdown", "👎"),
    ("-1", "👎"),
    ("ok_hand", "👌"),
    ("clap", "👏"),
    ("pray", "🙏"),
    ("praying_hands", "🙏"),
    ("muscle", "💪"),
    ("point_right", "👉"),
    ("point_left", "👈"),
    ("point_up", "☝️"),
    ("raised_hand", "✋"),
    ("eyes", "👀"),
    ("brain", "🧠"),
    ("baby", "👶"),
    ("boy", "👦"),
    ("girl", "👧"),
    ("man", "👨"),
    ("woman", "👩"),
    ("bow", "🙇"),
    ("shrug", "🤷"),
    ("facepalm", "🤦"),
    ("heart", "❤️"),
    ("broken_heart", "💔"),
    ("yellow_heart", "💛"),
    ("green_heart", "💚"),
    ("blue_heart", "💙"),
    ("purple_heart", "💜"),
    ("black_heart", "🖤"),
    ("sparkling_heart", "💖"),
    ("star", "⭐"),
    ("star2", "🌟"),
    ("sparkles", "✨"),
    ("zap", "⚡"),
    ("boom", "💥"),
    ("collision", "💥"),
    ("fire", "🔥"),
    ("snowflake", "❄️"),
    ("rainbow", "🌈"),
    ("sunny", "☀️"),
    ("cloud", "☁️"),
    ("droplet", "💧"),
    ("ocean", "🌊"),
    ("tada", "🎉"),
    ("confetti_ball", "🎊"),
    ("gift", "🎁"),
    ("balloon", "🎈"),
    ("trophy", "🏆"),
    ("medal_sports", "🏅"),
    ("crown", "👑"),
    ("gem", "💎"),
    ("moneybag", "💰"),
    ("dollar", "💵"),
    ("bulb", "💡"),
    ("bell", "🔔"),
    ("mega", "📣"),
    ("loudspeaker", "📢"),
    ("mag", "🔍"),
    ("key", "🔑"),
    ("lock", "🔒"),
    ("unlock", "🔓"),
    ("shield", "🛡️"),
    ("hammer", "🔨"),
    ("wrench", "🔧"),
    ("gear", "⚙️"),
    ("toolbox", "🧰"),
    ("link", "🔗"),
    ("paperclip", "📎"),
    ("pushpin", "📌"),
    ("round_pushpin", "📍"),
    ("clipboard", "📋"),
    ("memo", "📝"),
    ("pencil", "📝"),
    ("book", "📕"),
    ("books", "📚"),
    ("notebook", "📓"),
    ("bookmark", "🔖"),
    ("newspaper", "📰"),
    ("email", "✉️"),
    ("envelope", "✉️"),
    ("inbox_tray", "📥"),
    ("outbox_tray", "📤"),
    ("package", "📦"),
    ("file_folder", "📁"),
    ("open_file_folder", "📂"),
    ("page_facing_up", "📄"),
    ("calendar", "📅"),
    ("date", "📆"),
    ("clock1", "🕐"),
    ("clock", "🕐"),
    ("hourglass", "⌛"),
    ("alarm_clock", "⏰"),
    ("computer", "💻"),
    ("desktop_computer", "🖥️"),
    ("keyboard", "⌨️"),
    ("iphone", "📱"),
    ("camera", "📷"),
    ("video_camera", "📹"),
    ("tv", "📺"),
    ("battery", "🔋"),
    ("floppy_disk", "💾"),
    ("cd", "💿"),
    ("satellite", "📡"),
    ("wastebasket", "🗑️"),
    ("rocket", "🚀"),
    ("airplane", "✈️"),
    ("car", "🚗"),
    ("bus", "🚌"),
    ("train", "🚆"),
    ("ship", "🚢"),
    ("bike", "🚲"),
    ("walking", "🚶"),
    ("runner", "🏃"),
    ("check", "✅"),
    ("heavy_check_mark", "✅"),
    ("white_check_mark", "✅"),
    ("x", "❌"),
    ("heavy_multiplication_x", "❌"),
    ("o", "⭕"),
    ("heavy_circle", "⭕"),
    ("warning", "⚠️"),
    ("no_entry", "⛔"),
    ("no_entry_sign", "🚫"),
    ("question", "❓"),
    ("exclamation", "❗"),
    ("information_source", "ℹ️"),
    ("bulb_outline", "💡"),
    ("bangbang", "‼️"),
    ("interrobang", "⁉️"),
    ("chart", "📊"),
    ("bar_chart", "📊"),
    ("chart_with_upwards_trend", "📈"),
    ("trending_up", "📈"),
    ("chart_with_downwards_trend", "📉"),
    ("trending_down", "📉"),
    ("crystal_ball", "🔮"),
    ("recycle", "♻️"),
    ("white_circle", "⚪"),
    ("black_circle", "⚫"),
    ("red_circle", "🔴"),
    ("large_blue_circle", "🔵"),
    ("small_blue_diamond", "🔹"),
    ("small_orange_diamond", "🔸"),
    ("arrow_right", "➡️"),
    ("arrow_left", "⬅️"),
    ("arrow_up", "⬆️"),
    ("arrow_down", "⬇️"),
    ("recycle_bin", "🗑️"),
];

/// The shortcode table as character sequences.
pub open spec fn emoji_table() -> Seq<ParamV> {
    EMOJI@.map_values(|e: (&'static str, &'static str)| (e.0@, e.1@))
}

/// The emoji a shortcode name stands for.
pub fn lookup(name: &str) -> (r: Option<&'static str>)
    ensures
        match r {
            Some(t) => spec_get(emoji_table(), name@) == Some(t@),
            None => spec_get(emoji_table(), name@) is None,
        },
{
    table_lookup(&EMOJI, name)
}

/// A character allowed in a shortcode name.
pub open spec fn spec_name_char(c: char) -> bool {
    ('a' <= c <= 'z') || ('0' <= c <= '9') || c == '_' || c == '+' || c == '-'
}

/// The longest name looked at.
pub open spec fn window_len(chars: Seq<char>) -> int {
    if chars.len() - 1 < 48 {
        chars.len() - 1
    } else {
        48
    }
}

/// Where the closing colon of a shortcode at the start of `chars` stands: the
/// first `:` among the 48 characters after the opening one; the name between must
/// be at least two allowed characters.
pub open spec fn shortcode_end(chars: Seq<char>) -> Option<int> {
    if chars.len() == 0 || chars[0] != ':' {
        None
    } else {
        let w = window_len(chars);
        let end = crate::text::find_from(chars.subrange(0, 1 + w), ':', 1);
        if end >= 1 + w || end < 3 {
            None
        } else if forall|k: int| 1 <= k < end ==> spec_name_char(#[trigger] chars[k]) {
            Some(end)
        } else {
            None
        }
    }
}

/// The name of the shortcode at the start of `chars` and the characters taken,
/// both colons included.
pub open spec fn spec_parse_name(chars: Seq<char>) -> Option<(Seq<char>, int)> {
    match shortcode_end(chars) {
        Some(end) => Some((chars.subrange(1, end), end + 1)),
        None => None,
    }
}

/// The emoji of the shortcode at the start of `chars`, if its name is in the table.
pub open spec fn spec_parse(chars: Seq<char>) -> Option<(Seq<char>, int)> {
    match spec_parse_name(chars) {
        Some((name, used)) => match spec_get(emoji_table(), name) {
            Some(e) => Some((e, used)),
            None => None,
        },
        None => None,
    }
}

/// Where the closing colon stands, if `chars` starts with a well-formed shortcode.
fn find_shortcode_end(chars: &[char]) -> (r: Option<usize>)
    ensures
        match r {
            Some(e) => shortcode_end(chars@) == Some(e as int),
            None => shortcode_end(chars@) is None,
        },
{
    let n = chars.len();
    if n == 0 || chars[0] != ':' {
        return None;
    }
    let w: usize = if n - 1 < 48 {
        n - 1
    } else {
        48
    };
    let window = copy_range(chars, 0, 1 + w);
    assert(window@ =~= chars@.subrange(0, 1 + w));
    proof {
        crate::text::lemma_find_from(window@, ':', 1);
    }
    let end = crate::text::find_char(window.as_slice(), ':', 1);
    if end >= 1 + w || end < 3 {
        return None;
    }
    let mut k: usize = 1;
    while k < end
        invariant
            1 <= k <= end,
            end < n,
            n > 0 && chars@[0] == ':',
            3 <= end < 1 + window_len(chars@),
            end as int == crate::text::find_from(
                chars@.subrange(0, 1 + window_len(chars@)),
                ':',
                1,
            ),
            n == chars@.len(),
            forall|j: int| 1 <= j < k ==> spec_name_char(#[trigger] chars@[j]),
        decreases end - k,
    {
        let c = chars[k];
        if !(('a' <= c && c <= 'z') || ('0' <= c && c <= '9') || c == '_' || c == '+' || c
            == '-') {
            assert(!spec_name_char(chars@[k as int]));
            return None;
        }
        k += 1;
    }
    Some(end)
}

/// Parses the shortcode at the start of `chars` without looking it up: its name
/// and the number of characters taken.
pub fn parse_name(chars: &[char]) -> (r: Option<(String, usize)>)
    ensures
        match r {
            Some((name, used)) => spec_parse_name(chars@) == Some((name@, used as int)),
            None => spec_parse_name(chars@) is None,
        },
{
    match find_shortcode_end(chars) {
        Some(end) => {
            let name = copy_range(chars, 1, end);
            Some((chars_to_string(name.as_slice()), end + 1))
        },
        None => None,
    }
}

/// Parses the shortcode at the start of `chars`: the emoji and the number of
/// characters taken, both colons included.
pub fn parse(chars: &[char]) -> (r: Option<(String, usize)>)
    ensures
        match r {
            Some((e, used)) => spec_parse(chars@) == Some((e@, used as int)),
            None => spec_parse(chars@) is None,
        },
{
    match parse_name(chars) {
        Some((name, used)) => match lookup(name.as_str()) {
            Some(e) => Some((e.to_owned(), used)),
            None => None,
        },
        None => None,
    }
}

/// [`parse`] on a string slice.
pub fn parse_str(text: &str) -> (r: Option<(String, usize)>)
    ensures
        match r {
            Some((e, used)) => spec_parse(text@) == Some((e@, used as int)),
            None => spec_parse(text@) is None,
        },
{
    let chars = str_chars(text);
    parse(chars.as_slice())
}

} // verus!


verus! {

/// Every character of `n` may stand in a shortcode name.
pub open spec fn name_chars_ok(n: Seq<char>) -> bool {
    forall|k: int| 0 <= k < n.len() ==> spec_name_char(#[trigger] n[k])
}
/// The names of entries 0 to 9 of the table are made of name characters.
proof fn lemma_table_names_0()
    ensures
        forall|k: int| 0 <= k < 10 ==> name_chars_ok(#[trigger] emoji_table()[k].0) && emoji_table()[k].0.len() <= 47,
{
    reveal_strlit("smile");
    reveal_strlit("smiley");
    reveal_strlit("grin");
    reveal_strlit("laughing");
    reveal_strlit("satisfied");
    reveal_strlit("sweat_smile");
    reveal_strlit("joy");
    reveal_strlit("rofl");
    reveal_strlit("wink");
    reveal_strlit("blush");
    assert forall|k: int| 0 <= k < 10 implies name_chars_ok(#[trigger] emoji_table()[k].0) && emoji_table()[k].0.len() <= 47 by {
        if k == 0 {
            assert(emoji_table()[k].0 == "smile"@);
        } else if k == 1 {
            assert(emoji_table()[k].0 == "smiley"@);
        } else if k == 2 {
            assert(emoji_table()[k].0 == "grin"@);
        } else if k == 3 {
            assert(emoji_table()[k].0 == "laughing"@);
        } else if k == 4 {
            assert(emoji_table()[k].0 == "satisfied"@);
        } else if k == 5 {
            assert(emoji_table()[k].0 == "sweat_smile"@);
        } else if k == 6 {
            assert(emoji_table()[k].0 == "joy"@);
        } else if k == 7 {
            assert(emoji_table()[k].0 == "rofl"@);
        } else if k == 8 {
            assert(emoji_table()[k].0 == "wink"@);
        } else if k == 9 {
            assert(emoji_table()[k].0 == "blush"@);
        }
    }
}
/// The names of entries 10 to 19 of the table are made of name characters.
proof fn lemma_table_names_10()
    ensures
        forall|k: int| 10 <= k < 20 ==> name_chars_ok(#[trigger] emoji_table()[k].0) && emoji_table()[k].0.len() <= 47,
{
    reveal_strlit("heart_eyes");
    reveal_strlit("kissing_heart");
    reveal_strlit("thinking");
    reveal_strlit("neutral_face");
    reveal_strlit("expressionless");
    reveal_strlit("unamused");
    reveal_strlit("sweat");
    reveal_strlit("pensive");
    reveal_strlit("confused");
    reveal_strlit("upside_down_face");
    assert forall|k: int| 10 <= k < 20 implies name_chars_ok(#[trigger] emoji_table()[k].0) && emoji_table()[k].0.len() <= 47 by {
        if k == 10 {
            assert(emoji_table()[k].0 == "heart_eyes"@);
        } else if k == 11 {
            assert(emoji_table()[k].0 == "kissing_heart"@);
        } else if k == 12 {
            assert(emoji_table()[k].0 == "thinking"@);
        } else if k == 13 {
            assert(emoji_table()[k].0 == "neutral_face"@);
        } else if k == 14 {
            assert(emoji_table()[k].0 == "expressionless"@);
        } else if k == 15 {
            assert(emoji_table()[k].0 == "unamused"@);
        } else if k == 16 {
            assert(emoji_table()[k].0 == "sweat"@);
        } else if k == 17 {
            assert(emoji_table()[k].0 == "pensive"@);
        } else if k == 18 {
            assert(emoji_table()[k].0 == "confused"@);
        } else if k == 19 {
            assert(emoji_table()[k].0 == "upside_down_face"@);
        }
    }
}
/// The names of entries 20 to 29 of the table are made of name characters.
proof fn lemma_table_names_20()
    ensures
        forall|k: int| 20 <= k < 30 ==> name_chars_ok(#[trigger] emoji_table()[k].0) && emoji_table()[k].0.len() <= 47,
{
    reveal_strlit("smirk");
    reveal_strlit("sunglasses");
    reveal_strlit("cry");
    reveal_strlit("sob");
    reveal_strlit("angry");
    reveal_strlit("rage");
    reveal_strlit("scream");
    reveal_strlit("fearful");
    reveal_strlit("sleeping");
    reveal_strlit("mask");
    assert forall|k: int| 20 <= k < 30 implies name_chars_ok(#[trigger] emoji_table()[k].0) && emoji_table()[k].0.len() <= 47 by {
        if k == 20 {
            assert(emoji_table()[k].0 == "smirk"@);
        } else if k == 21 {
            assert(emoji_table()[k].0 == "sunglasses"@);
        } else if k == 22 {
            assert(emoji_table()[k].0 == "cry"@);
        } else if k == 23 {
            assert(emoji_table()[k].0 == "sob"@);
        } else if k == 24 {
            assert(emoji_table()[k].0 == "angry"@);
        } else if k == 25 {
            assert(emoji_table()[k].0 == "rage"@);
        } else if k == 26 {
            assert(emoji_table()[k].0 == "scream"@);
        } else if k == 27 {
            assert(emoji_table()[k].0 == "fearful"@);
        } else if k == 28 {
            assert(emoji_table()[k].0 == "sleeping"@);
        } else if k == 29 {
            assert(emoji_table()[k].0 == "mask"@);
        }
    }
}
/// The names of entries 30 to 39 of the table are made of name characters.
proof fn lemma_table_names_30()
    ensures
        forall|k: int| 30 <= k < 40 ==> name_chars_ok(#[trigger] emoji_table()[k].0) && emoji_table()[k].0.len() <= 47,
{
    reveal_strlit("nauseated_face");
    reveal_strlit("poop");
    reveal_strlit("hankey");
    reveal_strlit("skull");
    reveal_strlit("ghost");
    reveal_strlit("alien");
    reveal_strlit("robot");
    reveal_strlit("see_no_evil");
    reveal_strlit("hear_no_evil");
    reveal_strlit("speak_no_evil");
    assert forall|k: int| 30 <= k < 40 implies name_chars_ok(#[trigger] emoji_table()[k].0) && emoji_table()[k].0.len() <= 47 by {
        if k == 30 {
            assert(emoji_table()[k].0 == "nauseated_face"@);
        } else if k == 31 {
            assert(emoji_table()[k].0 == "poop"@);
        } else if k == 32 {
            assert(emoji_table()[k].0 == "hankey"@);
        } else if k == 33 {
            assert(emoji_table()[k].0 == "skull"@);
        } else if k == 34 {
            assert(emoji_table()[k].0 == "ghost"@);
        } else if k == 35 {
            assert(emoji_table()[k].0 == "alien"@);
        } else if k == 36 {
            assert(emoji_table()[k].0 == "robot"@);
        } else if k == 37 {
            assert(emoji_table()[k].0 == "see_no_evil"@);
        } else if k == 38 {
            assert(emoji_table()[k].0 == "hear_no_evil"@);
        } else if k == 39 {
            assert(emoji_table()[k].0 == "speak_no_evil"@);
        }
    }
}
/// The names of entries 40 to 49 of the table are made of name characters.
proof fn lemma_table_names_40()
    ensures
        forall|k: int| 40 <= k < 50 ==> name_chars_ok(#[trigger] emoji_table()[k].0) && emoji_table()[k].0.len() <= 47,
{
    reveal_strlit("wave");
    reveal_strlit("thumbsup");
    reveal_strlit("+1");
    reveal_strlit("thumbsdown");
    reveal_strlit("-1");
    reveal_strlit("ok_hand");
    reveal_strlit("clap");
    reveal_strlit("pray");
    reveal_strlit("praying_hands");
    reveal_strlit("muscle");
    assert forall|k: int| 40 <= k < 50 implies name_chars_ok(#[trigger] emoji_table()[k].0) && emoji_table()[k].0.len() <= 47 by {
        if k == 40 {
            assert(emoji_table()[k].0 == "wave"@);
        } else if k == 41 {
            assert(emoji_table()[k].0 == "thumbsup"@);
        } else if k == 42 {
            assert(emoji_table()[k].0 == "+1"@);
        } else if k == 43 {
            assert(emoji_table()[k].0 == "thumbsdown"@);
        } else if k == 44 {
            assert(emoji_table()[k].0 == "-1"@);
        } else if k == 45 {
            assert(emoji_table()[k].0 == "ok_hand"@);
        } else if k == 46 {
            assert(emoji_table()[k].0 == "clap"@);
        } else if k == 47 {
            assert(emoji_table()[k].0 == "pray"@);
        } else if k == 48 {
            assert(emoji_table()[k].0 == "praying_hands"@);
        } else if k == 49 {
            assert(emoji_table()[k].0 == "muscle"@);
        }
    }
}
/// The names of entries 50 to 59 of the table are made of name characters.
proof fn lemma_table_names_50()
    ensures
        forall|k: int| 50 <= k < 60 ==> name_chars_ok(#[trigger] emoji_table()[k].0) && emoji_table()[k].0.len() <= 47,
{
    reveal_strlit("point_right");
    reveal_strlit("point_left");
    reveal_strlit("point_up");
    reveal_strlit("raised_hand");
    reveal_strlit("eyes");
    reveal_strlit("brain");
    reveal_strlit("baby");
    reveal_strlit("boy");
    reveal_strlit("girl");
    reveal_strlit("man");
    assert forall|k: int| 50 <= k < 60 implies name_chars_ok(#[trigger] emoji_table()[k].0) && emoji_table()[k].0.len() <= 47 by {
        if k == 50 {
            assert(emoji_table()[k].0 == "point_right"@);
        } else if k == 51 {
            assert(emoji_table()[k].0 == "point_left"@);
        } else if k == 52 {
            assert(emoji_table()[k].0 == "point_up"@);
        } else if k == 53 {
            assert(emoji_table()[k].0 == "raised_hand"@);
        } else if k == 54 {
            assert(emoji_table()[k].0 == "eyes"@);
        } else if k == 55 {
            assert(emoji_table()[k].0 == "brain"@);
        } else if k == 56 {
            assert(emoji_table()[k].0 == "baby"@);
        } else if k == 57 {
            assert(emoji_table()[k].0 == "boy"@);
        } else if k == 58 {
            assert(emoji_table()[k].0 == "girl"@);
        } else if k == 59 {
            assert(emoji_table()[k].0 == "man"@);
        }
    }
}
/// The names of entries 60 to 69 of the table are made of name characters.
proof fn lemma_table_names_60()
    ensures
        forall|k: int| 60 <= k < 70 ==> name_chars_ok(#[trigger] emoji_table()[k].0) && emoji_table()[k].0.len() <= 47,
{
    reveal_strlit("woman");
    reveal_strlit("bow");
    reveal_strlit("shrug");
    reveal_strlit("facepalm");
    reveal_strlit("heart");
    reveal_strlit("broken_heart");
    reveal_strlit("yellow_heart");
    reveal_strlit("green_heart");
    reveal_strlit("blue_heart");
    reveal_strlit("purple_heart");
    assert forall|k: int| 60 <= k < 70 implies name_chars_ok(#[trigger] emoji_table()[k].0) && emoji_table()[k].0.len() <= 47 by {
        if k == 60 {
            assert(emoji_table()[k].0 == "woman"@);
        } else if k == 61 {
            assert(emoji_table()[k].0 == "bow"@);
        } else if k == 62 {
            assert(emoji_table()[k].0 == "shrug"@);
        } else if k == 63 {
            assert(emoji_table()[k].0 == "facepalm"@);
        } else if k == 64 {
            assert(emoji_table()[k].0 == "heart"@);
        } else if k == 65 {
            assert(emoji_table()[k].0 == "broken_heart"@);
        } else if k == 66 {
            assert(emoji_table()[k].0 == "yellow_heart"@);
        } else if k == 67 {
            assert(emoji_table()[k].0 == "green_heart"@);
        } else if k == 68 {
            assert(emoji_table()[k].0 == "blue_heart"@);
        } else if k == 69 {
            assert(emoji_table()[k].0 == "purple_heart"@);
        }
    }
}
/// The names of entries 70 to 79 of the table are made of name characters.
proof fn lemma_table_names_70()
    ensures
        forall|k: int| 70 <= k < 80 ==> name_chars_ok(#[trigger] emoji_table()[k].0) && emoji_table()[k].0.len() <= 47,
{
    reveal_strlit("black_heart");
    reveal_strlit("sparkling_heart");
    reveal_strlit("star");
    reveal_strlit("star2");
    reveal_strlit("sparkles");
    reveal_strlit("zap");
    reveal_strlit("boom");
    reveal_strlit("collision");
    reveal_strlit("fire");
    reveal_strlit("snowflake");
    assert forall|k: int| 70 <= k < 80 implies name_chars_ok(#[trigger] emoji_table()[k].0) && emoji_table()[k].0.len() <= 47 by {
        if k == 70 {
            assert(emoji_table()[k].0 == "black_heart"@);
        } else if k == 71 {
            assert(emoji_table()[k].0 == "sparkling_heart"@);
        } else if k == 72 {
            assert(emoji_table()[k].0 == "star"@);
        } else if k == 73 {
            assert(emoji_table()[k].0 == "star2"@);
        } else if k == 74 {
            assert(emoji_table()[k].0 == "sparkles"@);
        } else if k == 75 {
            assert(emoji_table()[k].0 == "zap"@);
        } else if k == 76 {
            assert(emoji_table()[k].0 == "boom"@);
        } else if k == 77 {
            assert(emoji_table()[k].0 == "collision"@);
        } else if k == 78 {
            assert(emoji_table()[k].0 == "fire"@);
        } else if k == 79 {
            assert(emoji_table()[k].0 == "snowflake"@);
        }
    }
}
/// The names of entries 80 to 89 of the table are made of name characters.
proof fn lemma_table_names_80()
    ensures
        forall|k: int| 80 <= k < 90 ==> name_chars_ok(#[trigger] emoji_table()[k].0) && emoji_table()[k].0.len() <= 47,
{
    reveal_strlit("rainbow");
    reveal_strlit("sunny");
    reveal_strlit("cloud");
    reveal_strlit("droplet");
    reveal_strlit("ocean");
    reveal_strlit("tada");
    reveal_strlit("confetti_ball");
    reveal_strlit("gift");
    reveal_strlit("balloon");
    reveal_strlit("trophy");
    assert forall|k: int| 80 <= k < 90 implies name_chars_ok(#[trigger] emoji_table()[k].0) && emoji_table()[k].0.len() <= 47 by {
        if k == 80 {
            assert(emoji_table()[k].0 == "rainbow"@);
        } else if k == 81 {
            assert(emoji_table()[k].0 == "sunny"@);
        } else if k == 82 {
            assert(emoji_table()[k].0 == "cloud"@);
        } else if k == 83 {
            assert(emoji_table()[k].0 == "droplet"@);
        } else if k == 84 {
            assert(emoji_table()[k].0 == "ocean"@);
        } else if k == 85 {
            assert(emoji_table()[k].0 == "tada"@);
        } else if k == 86 {
            assert(emoji_table()[k].0 == "confetti_ball"@);
        } else if k == 87 {
            assert(emoji_table()[k].0 == "gift"@);
        } else if k == 88 {
            assert(emoji_table()[k].0 == "balloon"@);
        } else if k == 89 {
            assert(emoji_table()[k].0 == "trophy"@);
        }
    }
}
/// The names of entries 90 to 99 of the table are made of name characters.
proof fn lemma_table_names_90()
    ensures
        forall|k: int| 90 <= k < 100 ==> name_chars_ok(#[trigger] emoji_table()[k].0) && emoji_table()[k].0.len() <= 47,
{
    reveal_strlit("medal_sports");
    reveal_strlit("crown");
    reveal_strlit("gem");
    reveal_strlit("moneybag");
    reveal_strlit("dollar");
    reveal_strlit("bulb");
    reveal_strlit("bell");
    reveal_strlit("mega");
    reveal_strlit("loudspeaker");
    reveal_strlit("mag");
    assert forall|k: int| 90 <= k < 100 implies name_chars_ok(#[trigger] emoji_table()[k].0) && emoji_table()[k].0.len() <= 47 by {
        if k == 90 {
            assert(emoji_table()[k].0 == "medal_sports"@);
        } else if k == 91 {
            assert(emoji_table()[k].0 == "crown"@);
        } else if k == 92 {
            assert(emoji_table()[k].0 == "gem"@);
        } else if k == 93 {
            assert(emoji_table()[k].0 == "moneybag"@);
        } else if k == 94 {
            assert(emoji_table()[k].0 == "dollar"@);
        } else if k == 95 {
            assert(emoji_table()[k].0 == "bulb"@);
        } else if k == 96 {
            assert(emoji_table()[k].0 == "bell"@);
        } else if k == 97 {
            assert(emoji_table()[k].0 == "mega"@);
        } else if k == 98 {
            assert(emoji_table()[k].0 == "loudspeaker"@);
        } else if k == 99 {
            assert(emoji_table()[k].0 == "mag"@);
        }
    }
}
/// The names of entries 100 to 109 of the table are made of name characters.
proof fn lemma_table_names_100()
    ensures
        forall|k: int| 100 <= k < 110 ==> name_chars_ok(#[trigger] emoji_table()[k].0) && emoji_table()[k].0.len() <= 47,
{
    reveal_strlit("key");
    reveal_strlit("lock");
    reveal_strlit("unlock");
    reveal_strlit("shield");
    reveal_strlit("hammer");
    reveal_strlit("wrench");
    reveal_strlit("gear");
    reveal_strlit("toolbox");
    reveal_strlit("link");
    reveal_strlit("paperclip");
    assert forall|k: int| 100 <= k < 110 implies name_chars_ok(#[trigger] emoji_table()[k].0) && emoji_table()[k].0.len() <= 47 by {
        if k == 100 {
            assert(emoji_table()[k].0 == "key"@);
        } else if k == 101 {
            assert(emoji_table()[k].0 == "lock"@);
        } else if k == 102 {
            assert(emoji_table()[k].0 == "unlock"@);
        } else if k == 103 {
            assert(emoji_table()[k].0 == "shield"@);
        } else if k == 104 {
            assert(emoji_table()[k].0 == "hammer"@);
        } else if k == 105 {
            assert(emoji_table()[k].0 == "wrench"@);
        } else if k == 106 {
            assert(emoji_table()[k].0 == "gear"@);
        } else if k == 107 {
            assert(emoji_table()[k].0 == "toolbox"@);
        } else if k == 108 {
            assert(emoji_table()[k].0 == "link"@);
        } else if k == 109 {
            assert(emoji_table()[k].0 == "paperclip"@);
        }
    }
}
/// The names of entries 110 to 119 of the table are made of name characters.
proof fn lemma_table_names_110()
    ensures
        forall|k: int| 110 <= k < 120 ==> name_chars_ok(#[trigger] emoji_table()[k].0) && emoji_table()[k].0.len() <= 47,
{
    reveal_strlit("pushpin");
    reveal_strlit("round_pushpin");
    reveal_strlit("clipboard");
    reveal_strlit("memo");
    reveal_strlit("pencil");
    reveal_strlit("book");
    reveal_strlit("books");
    reveal_strlit("notebook");
    reveal_strlit("bookmark");
    reveal_strlit("newspaper");
    assert forall|k: int| 110 <= k < 120 implies name_chars_ok(#[trigger] emoji_table()[k].0) && emoji_table()[k].0.len() <= 47 by {
        if k == 110 {
            assert(emoji_table()[k].0 == "pushpin"@);
        } else if k == 111 {
            assert(emoji_table()[k].0 == "round_pushpin"@);
        } else if k == 112 {
            assert(emoji_table()[k].0 == "clipboard"@);
        } else if k == 113 {
            assert(emoji_table()[k].0 == "memo"@);
        } else if k == 114 {
            assert(emoji_table()[k].0 == "pencil"@);
        } else if k == 115 {
            assert(emoji_table()[k].0 == "book"@);
        } else if k == 116 {
            assert(emoji_table()[k].0 == "books"@);
        } else if k == 117 {
            assert(emoji_table()[k].0 == "notebook"@);
        } else if k == 118 {
            assert(emoji_table()[k].0 == "bookmark"@);
        } else if k == 119 {
            assert(emoji_table()[k].0 == "newspaper"@);
        }
    }
}
/// The names of entries 120 to 129 of the table are made of name characters.
proof fn lemma_table_names_120()
    ensures
        forall|k: int| 120 <= k < 130 ==> name_chars_ok(#[trigger] emoji_table()[k].0) && emoji_table()[k].0.len() <= 47,
{
    reveal_strlit("email");
    reveal_strlit("envelope");
    reveal_strlit("inbox_tray");
    reveal_strlit("outbox_tray");
    reveal_strlit("package");
    reveal_strlit("file_folder");
    reveal_strlit("open_file_folder");
    reveal_strlit("page_facing_up");
    reveal_strlit("calendar");
    reveal_strlit("date");
    assert forall|k: int| 120 <= k < 130 implies name_chars_ok(#[trigger] emoji_table()[k].0) && emoji_table()[k].0.len() <= 47 by {
        if k == 120 {
            assert(emoji_table()[k].0 == "email"@);
        } else if k == 121 {
            assert(emoji_table()[k].0 == "envelope"@);
        } else if k == 122 {
            assert(emoji_table()[k].0 == "inbox_tray"@);
        } else if k == 123 {
            assert(emoji_table()[k].0 == "outbox_tray"@);
        } else if k == 124 {
            assert(emoji_table()[k].0 == "package"@);
        } else if k == 125 {
            assert(emoji_table()[k].0 == "file_folder"@);
        } else if k == 126 {
            assert(emoji_table()[k].0 == "open_file_folder"@);
        } else if k == 127 {
            assert(emoji_table()[k].0 == "page_facing_up"@);
        } else if k == 128 {
            assert(emoji_table()[k].0 == "calendar"@);
        } else if k == 129 {
            assert(emoji_table()[k].0 == "date"@);
        }
    }
}
/// The names of entries 130 to 139 of the table are made of name characters.
proof fn lemma_table_names_130()
    ensures
        forall|k: int| 130 <= k < 140 ==> name_chars_ok(#[trigger] emoji_table()[k].0) && emoji_table()[k].0.len() <= 47,
{
    reveal_strlit("clock1");
    reveal_strlit("clock");
    reveal_strlit("hourglass");
    reveal_strlit("alarm_clock");
    reveal_strlit("computer");
    reveal_strlit("desktop_computer");
    reveal_strlit("keyboard");
    reveal_strlit("iphone");
    reveal_strlit("camera");
    reveal_strlit("video_camera");
    assert forall|k: int| 130 <= k < 140 implies name_chars_ok(#[trigger] emoji_table()[k].0) && emoji_table()[k].0.len() <= 47 by {
        if k == 130 {
            assert(emoji_table()[k].0 == "clock1"@);
        } else if k == 131 {
            assert(emoji_table()[k].0 == "clock"@);
        } else if k == 132 {
            assert(emoji_table()[k].0 == "hourglass"@);
        } else if k == 133 {
            assert(emoji_table()[k].0 == "alarm_clock"@);
        } else if k == 134 {
            assert(emoji_table()[k].0 == "computer"@);
        } else if k == 135 {
            assert(emoji_table()[k].0 == "desktop_computer"@);
        } else if k == 136 {
            assert(emoji_table()[k].0 == "keyboard"@);
        } else if k == 137 {
            assert(emoji_table()[k].0 == "iphone"@);
        } else if k == 138 {
            assert(emoji_table()[k].0 == "camera"@);
        } else if k == 139 {
            assert(emoji_table()[k].0 == "video_camera"@);
        }
    }
}
/// The names of entries 140 to 149 of the table are made of name characters.
proof fn lemma_table_names_140()
    ensures
        forall|k: int| 140 <= k < 150 ==> name_chars_ok(#[trigger] emoji_table()[k].0) && emoji_table()[k].0.len() <= 47,
{
    reveal_strlit("tv");
    reveal_strlit("battery");
    reveal_strlit("floppy_disk");
    reveal_strlit("cd");
    reveal_strlit("satellite");
    reveal_strlit("wastebasket");
    reveal_strlit("rocket");
    reveal_strlit("airplane");
    reveal_strlit("car");
    reveal_strlit("bus");
    assert forall|k: int| 140 <= k < 150 implies name_chars_ok(#[trigger] emoji_table()[k].0) && emoji_table()[k].0.len() <= 47 by {
        if k == 140 {
            assert(emoji_table()[k].0 == "tv"@);
        } else if k == 141 {
            assert(emoji_table()[k].0 == "battery"@);
        } else if k == 142 {
            assert(emoji_table()[k].0 == "floppy_disk"@);
        } else if k == 143 {
            assert(emoji_table()[k].0 == "cd"@);
        } else if k == 144 {
            assert(emoji_table()[k].0 == "satellite"@);
        } else if k == 145 {
            assert(emoji_table()[k].0 == "wastebasket"@);
        } else if k == 146 {
            assert(emoji_table()[k].0 == "rocket"@);
        } else if k == 147 {
            assert(emoji_table()[k].0 == "airplane"@);
        } else if k == 148 {
            assert(emoji_table()[k].0 == "car"@);
        } else if k == 149 {
            assert(emoji_table()[k].0 == "bus"@);
        }
    }
}
/// The names of entries 150 to 159 of the table are made of name characters.
proof fn lemma_table_names_150()
    ensures
        forall|k: int| 150 <= k < 160 ==> name_chars_ok(#[trigger] emoji_table()[k].0) && emoji_table()[k].0.len() <= 47,
{
    reveal_strlit("train");
    reveal_strlit("ship");
    reveal_strlit("bike");
    reveal_strlit("walking");
    reveal_strlit("runner");
    reveal_strlit("check");
    reveal_strlit("heavy_check_mark");
    reveal_strlit("white_check_mark");
    reveal_strlit("x");
    reveal_strlit("heavy_multiplication_x");
    assert forall|k: int| 150 <= k < 160 implies name_chars_ok(#[trigger] emoji_table()[k].0) && emoji_table()[k].0.len() <= 47 by {
        if k == 150 {
            assert(emoji_table()[k].0 == "train"@);
        } else if k == 151 {
            assert(emoji_table()[k].0 == "ship"@);
        } else if k == 152 {
            assert(emoji_table()[k].0 == "bike"@);
        } else if k == 153 {
            assert(emoji_table()[k].0 == "walking"@);
        } else if k == 154 {
            assert(emoji_table()[k].0 == "runner"@);
        } else if k == 155 {
            assert(emoji_table()[k].0 == "check"@);
        } else if k == 156 {
            assert(emoji_table()[k].0 == "heavy_check_mark"@);
        } else if k == 157 {
            assert(emoji_table()[k].0 == "white_check_mark"@);
        } else if k == 158 {
            assert(emoji_table()[k].0 == "x"@);
        } else if k == 159 {
            assert(emoji_table()[k].0 == "heavy_multiplication_x"@);
        }
    }
}
/// The names of entries 160 to 169 of the table are made of name characters.
proof fn lemma_table_names_160()
    ensures
        forall|k: int| 160 <= k < 170 ==> name_chars_ok(#[trigger] emoji_table()[k].0) && emoji_table()[k].0.len() <= 47,
{
    reveal_strlit("o");
    reveal_strlit("heavy_circle");
    reveal_strlit("warning");
    reveal_strlit("no_entry");
    reveal_strlit("no_entry_sign");
    reveal_strlit("question");
    reveal_strlit("exclamation");
    reveal_strlit("information_source");
    reveal_strlit("bulb_outline");
    reveal_strlit("bangbang");
    assert forall|k: int| 160 <= k < 170 implies name_chars_ok(#[trigger] emoji_table()[k].0) && emoji_table()[k].0.len() <= 47 by {
        if k == 160 {
            assert(emoji_table()[k].0 == "o"@);
        } else if k == 161 {
            assert(emoji_table()[k].0 == "heavy_circle"@);
        } else if k == 162 {
            assert(emoji_table()[k].0 == "warning"@);
        } else if k == 163 {
            assert(emoji_table()[k].0 == "no_entry"@);
        } else if k == 164 {
            assert(emoji_table()[k].0 == "no_entry_sign"@);
        } else if k == 165 {
            assert(emoji_table()[k].0 == "question"@);
        } else if k == 166 {
            assert(emoji_table()[k].0 == "exclamation"@);
        } else if k == 167 {
            assert(emoji_table()[k].0 == "information_source"@);
        } else if k == 168 {
            assert(emoji_table()[k].0 == "bulb_outline"@);
        } else if k == 169 {
            assert(emoji_table()[k].0 == "bangbang"@);
        }
    }
}
/// The names of entries 170 to 179 of the table are made of name characters.
proof fn lemma_table_names_170()
    ensures
        forall|k: int| 170 <= k < 180 ==> name_chars_ok(#[trigger] emoji_table()[k].0) && emoji_table()[k].0.len() <= 47,
{
    reveal_strlit("interrobang");
    reveal_strlit("chart");
    reveal_strlit("bar_chart");
    reveal_strlit("chart_with_upwards_trend");
    reveal_strlit("trending_up");
    reveal_strlit("chart_with_downwards_trend");
    reveal_strlit("trending_down");
    reveal_strlit("crystal_ball");
    reveal_strlit("recycle");
    reveal_strlit("white_circle");
    assert forall|k: int| 170 <= k < 180 implies name_chars_ok(#[trigger] emoji_table()[k].0) && emoji_table()[k].0.len() <= 47 by {
        if k == 170 {
            assert(emoji_table()[k].0 == "interrobang"@);
        } else if k == 171 {
            assert(emoji_table()[k].0 == "chart"@);
        } else if k == 172 {
            assert(emoji_table()[k].0 == "bar_chart"@);
        } else if k == 173 {
            assert(emoji_table()[k].0 == "chart_with_upwards_trend"@);
        } else if k == 174 {
            assert(emoji_table()[k].0 == "trending_up"@);
        } else if k == 175 {
            assert(emoji_table()[k].0 == "chart_with_downwards_trend"@);
        } else if k == 176 {
            assert(emoji_table()[k].0 == "trending_down"@);
        } else if k == 177 {
            assert(emoji_table()[k].0 == "crystal_ball"@);
        } else if k == 178 {
            assert(emoji_table()[k].0 == "recycle"@);
        } else if k == 179 {
            assert(emoji_table()[k].0 == "white_circle"@);
        }
    }
}
/// The names of entries 180 to 189 of the table are made of name characters.
proof fn lemma_table_names_180()
    ensures
        forall|k: int| 180 <= k < 190 ==> name_chars_ok(#[trigger] emoji_table()[k].0) && emoji_table()[k].0.len() <= 47,
{
    reveal_strlit("black_circle");
    reveal_strlit("red_circle");
    reveal_strlit("large_blue_circle");
    reveal_strlit("small_blue_diamond");
    reveal_strlit("small_orange_diamond");
    reveal_strlit("arrow_right");
    reveal_strlit("arrow_left");
    reveal_strlit("arrow_up");
    reveal_strlit("arrow_down");
    reveal_strlit("recycle_bin");
    assert forall|k: int| 180 <= k < 190 implies name_chars_ok(#[trigger] emoji_table()[k].0) && emoji_table()[k].0.len() <= 47 by {
        if k == 180 {
            assert(emoji_table()[k].0 == "black_circle"@);
        } else if k == 181 {
            assert(emoji_table()[k].0 == "red_circle"@);
        } else if k == 182 {
            assert(emoji_table()[k].0 == "large_blue_circle"@);
        } else if k == 183 {
            assert(emoji_table()[k].0 == "small_blue_diamond"@);
        } else if k == 184 {
            assert(emoji_table()[k].0 == "small_orange_diamond"@);
        } else if k == 185 {
            assert(emoji_table()[k].0 == "arrow_right"@);
        } else if k == 186 {
            assert(emoji_table()[k].0 == "arrow_left"@);
        } else if k == 187 {
            assert(emoji_table()[k].0 == "arrow_up"@);
        } else if k == 188 {
            assert(emoji_table()[k].0 == "arrow_down"@);
        } else if k == 189 {
            assert(emoji_table()[k].0 == "recycle_bin"@);
        }
    }
}
/// Every name in the table is made of name characters, and none is longer than 47.
proof fn lemma_table_names()
    ensures
        emoji_table().len() == 190,
        forall|k: int| 0 <= k < 190 ==> name_chars_ok(#[trigger] emoji_table()[k].0) && emoji_table()[k].0.len() <= 47,
{
    lemma_table_names_0();
    lemma_table_names_10();
    lemma_table_names_20();
    lemma_table_names_30();
    lemma_table_names_40();
    lemma_table_names_50();
    lemma_table_names_60();
    lemma_table_names_70();
    lemma_table_names_80();
    lemma_table_names_90();
    lemma_table_names_100();
    lemma_table_names_110();
    lemma_table_names_120();
    lemma_table_names_130();
    lemma_table_names_140();
    lemma_table_names_150();
    lemma_table_names_160();
    lemma_table_names_170();
    lemma_table_names_180();
}
/// A key of some entries is found among them.
proof fn lemma_get_found(entries: Seq<ParamV>, k: int)
    requires
        0 <= k < entries.len(),
    ensures
        spec_get(entries, entries[k].0) is Some,
    decreases k,
{
    if k > 0 && entries[0].0 != entries[k].0 {
        assert(entries.drop_first()[k - 1] == entries[k]);
        lemma_get_found(entries.drop_first(), k - 1);
    }
}

/// A name of 2 to 47 name characters between two colons is read whole.
proof fn lemma_shortcode_of(name: Seq<char>)
    requires
        2 <= name.len() <= 47,
        name_chars_ok(name),
    ensures
        spec_parse_name(seq![':'] + name + seq![':']) == Some((name, name.len() + 2 as int)),
{
    let chars = seq![':'] + name + seq![':'];
    let n = name.len() as int;
    assert(window_len(chars) == n + 1);
    let win = chars.subrange(0, 1 + window_len(chars));
    assert(win =~= chars);
    crate::text::lemma_find_from(win, ':', 1);
    assert forall|j: int| 1 <= j < n + 1 implies #[trigger] chars[j] != ':' && spec_name_char(chars[j]) by {
        assert(chars[j] == name[j - 1]);
        assert(spec_name_char(name[j - 1]));
    }
    if crate::text::find_from(win, ':', 1) < n + 1 {
        let e = crate::text::find_from(win, ':', 1);
        assert(win[e] == ':');
        assert(chars[e] != ':');
    }
    assert(chars[n + 1] == ':');
    assert(crate::text::find_from(win, ':', 1) == n + 1);
    assert(chars.subrange(1, n + 1) =~= name);
}

/// Every shortcode of the table whose name has at least two characters (the
/// shortest a shortcode can have) is read back: `:name:` gives the emoji the table
/// holds for `name`, taking all of its characters.
pub proof fn table_shortcodes_are_reachable(k: int)
    requires
        0 <= k < emoji_table().len(),
        emoji_table()[k].0.len() >= 2,
    ensures
        spec_get(emoji_table(), emoji_table()[k].0) is Some,
        spec_parse(seq![':'] + emoji_table()[k].0 + seq![':']) == Some(
            (spec_get(emoji_table(), emoji_table()[k].0)->0, emoji_table()[k].0.len() + 2 as int),
        ),
{
    lemma_table_names();
    let name = emoji_table()[k].0;
    lemma_shortcode_of(name);
    lemma_get_found(emoji_table(), k);
}

} // verus!
