//! Test configuration helpers: the settings panels, test modifiers and their
//! bit encoding, and the word-pool frequency list shown in the menu.

use vstd::prelude::*;
use crate::numfmt::{dec_str, usize_to_string};

verus! {

/// The four settings panels plus the "none selected" state.
#[derive(Clone, Copy, PartialEq, Eq, Structural, Debug)]
pub enum SetList {
    Length,
    Frequency,
    Test,
    Mods,
    Nil,
}

/// Whether a test types words from a list or runs a script.
#[derive(Clone, Copy, PartialEq, Eq, Structural, Debug)]
pub enum TestVariant {
    Standard,
    Script,
}

/// Optional decorations applied to a generated test.
#[derive(Clone, Copy, PartialEq, Eq, Structural, Debug, Hash)]
pub enum TestMod {
    Punctuation,
    Numbers,
    Symbols,
}

fn str_eq(a: &str, b: &str) -> (r: bool)
    ensures
        r == (a@ == b@),
{
    let owned_a = a.to_owned();
    let owned_b = b.to_owned();
    owned_a == owned_b
}

/// The bit that encodes each modifier in the one-byte bitflag form.
pub open spec fn mod_bit(m: TestMod) -> u8 {
    match m {
        TestMod::Punctuation => 1,
        TestMod::Numbers => 2,
        TestMod::Symbols => 4,
    }
}

impl TestMod {
    /// The modifier a single set bit stands for; other values have no meaning.
    pub fn from_bitflag(bitflag: u8) -> (r: TestMod)
        requires
            bitflag == 1 || bitflag == 2 || bitflag == 4,
        ensures
            mod_bit(r) == bitflag,
    {
        if bitflag == 1 {
            TestMod::Punctuation
        } else if bitflag == 2 {
            TestMod::Numbers
        } else {
            TestMod::Symbols
        }
    }

    /// The configuration name of each modifier; the explicit bijection
    /// that the settings screen looks up in both directions.
    pub fn name(&self) -> (r: &'static str)
        ensures
            r@ == match *self {
                TestMod::Punctuation => "punctuation"@,
                TestMod::Numbers => "numbers"@,
                TestMod::Symbols => "symbols"@,
            },
    {
        match *self {
            TestMod::Punctuation => "punctuation",
            TestMod::Numbers => "numbers",
            TestMod::Symbols => "symbols",
        }
    }

    /// The modifier a configuration name stands for, if any: the inverse
    /// of `name`.
    pub fn from_name(text: &str) -> (r: Option<TestMod>)
        ensures
            r == if text@ == "punctuation"@ {
                Some(TestMod::Punctuation)
            } else if text@ == "numbers"@ {
                Some(TestMod::Numbers)
            } else if text@ == "symbols"@ {
                Some(TestMod::Symbols)
            } else {
                None::<TestMod>
            },
    {
        if str_eq(text, "punctuation") {
            Some(TestMod::Punctuation)
        } else if str_eq(text, "numbers") {
            Some(TestMod::Numbers)
        } else if str_eq(text, "symbols") {
            Some(TestMod::Symbols)
        } else {
            None
        }
    }

    /// The two-character tag shown for the modifier.
    pub fn label(&self) -> (r: &'static str)
        ensures
            r@ == match *self {
                TestMod::Punctuation => "!?"@,
                TestMod::Numbers => "17"@,
                TestMod::Symbols => "#$"@,
            },
    {
        match *self {
            TestMod::Punctuation => "!?",
            TestMod::Numbers => "17",
            TestMod::Symbols => "#$",
        }
    }
}

/// The modifiers encoded by `b`, in ascending bit order.
pub open spec fn decoded_mods(b: u8) -> Seq<TestMod> {
    (if b & 1 == 1 {
        seq![TestMod::Punctuation]
    } else {
        Seq::empty()
    }) + (if b & 2 == 2 {
        seq![TestMod::Numbers]
    } else {
        Seq::empty()
    }) + (if b & 4 == 4 {
        seq![TestMod::Symbols]
    } else {
        Seq::empty()
    })
}

/// Decodes a modifier bitflag into the set of modifiers it names.
/// Bits above the three defined ones have no meaning and are rejected.
pub fn decode_test_mod_bitflags(bitflag: u8) -> (r: Vec<TestMod>)
    requires
        bitflag < 8,
    ensures
        r@ == decoded_mods(bitflag),
{
    let mut mods: Vec<TestMod> = Vec::new();
    if bitflag & 1 == 1 {
        mods.push(TestMod::from_bitflag(1));
    }
    if bitflag & 2 == 2 {
        mods.push(TestMod::from_bitflag(2));
    }
    if bitflag & 4 == 4 {
        mods.push(TestMod::from_bitflag(4));
    }
    proof {
        assert(mods@ =~= decoded_mods(bitflag));
    }
    mods
}

/// Whether the name marks a script test: it starts with the `#!` sign.
pub fn is_script(text: &str) -> (r: bool)
    ensures
        r <==> (text@.len() >= 2 && text@[0] == '#' && text@[1] == '!'),
{
    let n = text.unicode_len();
    if n < 2 {
        return false;
    }
    let c0 = text.get_char(0);
    let c1 = text.get_char(1);
    c0 == '#' && c1 == '!'
}

/// A selectable list of entries, one panel of the settings screen.
pub struct StatefulList {
    pub items: Vec<String>,
    pub selected: Option<usize>,
}

impl StatefulList {
    /// A list over the given entries with nothing selected yet.
    pub fn with_items(items: Vec<String>) -> (r: StatefulList)
        ensures
            r.items@ == items@,
            r.selected is None,
    {
        StatefulList { items, selected: None }
    }
}

/// The word-pool sizes offered for a word list of `word_count` lines:
/// the fixed ladder, cut below the list's size, then the size itself.
pub open spec fn freq_items(word_count: nat) -> Seq<Seq<char>> {
    (if 100 < word_count {
        seq![dec_str(100)]
    } else {
        Seq::empty()
    }) + (if 1000 < word_count {
        seq![dec_str(1000)]
    } else {
        Seq::empty()
    }) + (if 5000 < word_count {
        seq![dec_str(5000)]
    } else {
        Seq::empty()
    }) + (if 10000 < word_count {
        seq![dec_str(10000)]
    } else {
        Seq::empty()
    }) + (if 20000 < word_count {
        seq![dec_str(20000)]
    } else {
        Seq::empty()
    }) + (if 50000 < word_count {
        seq![dec_str(50000)]
    } else {
        Seq::empty()
    }) + seq![dec_str(word_count)]
}

/// Builds the frequency-list panel for a word list of `word_count` lines.
pub fn create_frequency_list(word_count: usize) -> (r: StatefulList)
    ensures
        r.items@.map_values(|s: String| s@) == freq_items(word_count as nat),
        r.selected is None,
{
    let mut items: Vec<String> = Vec::new();
    if 100 < word_count {
        items.push(usize_to_string(100));
    }
    if 1000 < word_count {
        items.push(usize_to_string(1000));
    }
    if 5000 < word_count {
        items.push(usize_to_string(5000));
    }
    if 10000 < word_count {
        items.push(usize_to_string(10000));
    }
    if 20000 < word_count {
        items.push(usize_to_string(20000));
    }
    if 50000 < word_count {
        items.push(usize_to_string(50000));
    }
    items.push(usize_to_string(word_count));
    proof {
        assert(items@.map_values(|s: String| s@) =~= freq_items(word_count as nat));
    }
    StatefulList::with_items(items)
}

/// The name mapping is a bijection: looking a modifier's name back up
/// yields the same modifier.
pub proof fn lemma_mod_names_bijective(m: TestMod)
    ensures
        ({
            let n = match m {
                TestMod::Punctuation => "punctuation"@,
                TestMod::Numbers => "numbers"@,
                TestMod::Symbols => "symbols"@,
            };
            &&& (n == "punctuation"@ ==> m == TestMod::Punctuation)
            &&& (n == "numbers"@ ==> m == TestMod::Numbers)
            &&& (n == "symbols"@ ==> m == TestMod::Symbols)
        }),
{
    reveal_strlit("punctuation");
    reveal_strlit("numbers");
    reveal_strlit("symbols");
    match m {
        TestMod::Punctuation => {
            assert("punctuation"@.len() == 11);
            assert("numbers"@.len() == 7);
            assert("symbols"@.len() == 7);
        },
        TestMod::Numbers => {
            assert("numbers"@[0] == 'n');
            assert("symbols"@[0] == 's');
        },
        TestMod::Symbols => {
            assert("numbers"@[0] == 'n');
            assert("symbols"@[0] == 's');
        },
    }
}

} // verus!
