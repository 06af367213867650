//! User settings: the known keys, their defaults, and reading a numeric
//! setting out of a loaded key-value table.

use vstd::prelude::*;
use vstd::utf8::encode_utf8;

verus! {

/// The keys of the settings file.
#[derive(Copy, Clone, Debug, Eq, PartialEq, Hash, Structural)]
pub enum Setting {
    DbFile,
    WindowXPosition,
    WindowYPosition,
    WindowWidth,
    WindowHeight,
    ColumnFileNameWidth,
    ColumnFilePathWidth,
    ColumnFileSizeWidth,
}

impl Setting {
    /// The value a setting takes when the settings file does not name it.
    pub fn default_value(&self) -> (r: &'static str)
        ensures
            match self {
                Setting::DbFile => r@ == "cloppy.db"@,
                Setting::WindowXPosition => r@ == "50"@,
                Setting::WindowYPosition => r@ == "50"@,
                Setting::WindowWidth => r@ == "50"@,
                Setting::WindowHeight => r@ == "50"@,
                Setting::ColumnFileNameWidth => r@ == "50"@,
                Setting::ColumnFilePathWidth => r@ == "50"@,
                Setting::ColumnFileSizeWidth => r@ == "50"@,
            },
    {
        match self {
            Setting::DbFile => "cloppy.db",
            Setting::WindowXPosition => "50",
            Setting::WindowYPosition => "50",
            Setting::WindowWidth => "50",
            Setting::WindowHeight => "50",
            Setting::ColumnFileNameWidth => "50",
            Setting::ColumnFilePathWidth => "50",
            Setting::ColumnFileSizeWidth => "50",
        }
    }

    /// The name under which a setting stands in the settings file.
    pub fn name(&self) -> (r: &'static str)
        ensures
            match self {
                Setting::DbFile => r@ == "DbFile"@,
                Setting::WindowXPosition => r@ == "WindowXPosition"@,
                Setting::WindowYPosition => r@ == "WindowYPosition"@,
                Setting::WindowWidth => r@ == "WindowWidth"@,
                Setting::WindowHeight => r@ == "WindowHeight"@,
                Setting::ColumnFileNameWidth => r@ == "ColumnFileNameWidth"@,
                Setting::ColumnFilePathWidth => r@ == "ColumnFilePathWidth"@,
                Setting::ColumnFileSizeWidth => r@ == "ColumnFileSizeWidth"@,
            },
    {
        match self {
            Setting::DbFile => "DbFile",
            Setting::WindowXPosition => "WindowXPosition",
            Setting::WindowYPosition => "WindowYPosition",
            Setting::WindowWidth => "WindowWidth",
            Setting::WindowHeight => "WindowHeight",
            Setting::ColumnFileNameWidth => "ColumnFileNameWidth",
            Setting::ColumnFilePathWidth => "ColumnFilePathWidth",
            Setting::ColumnFileSizeWidth => "ColumnFileSizeWidth",
        }
    }
}

/// Whether every byte is an ASCII decimal digit, and there is at least
/// one.
pub open spec fn is_digits(s: Seq<u8>) -> bool {
    s.len() > 0 && forall|i: int| 0 <= i < s.len() ==> 0x30 <= #[trigger] s[i] <= 0x39
}

/// The number that a sequence of ASCII decimal digits denotes.
pub open spec fn digits_value(s: Seq<u8>) -> nat
    decreases s.len(),
{
    if s.len() == 0 {
        0
    } else {
        (digits_value(s.drop_last()) * 10 + (s.last() - 0x30)) as nat
    }
}

/// Whether a byte sequence denotes a decimal integer: an optional minus
/// sign, then digits.
pub open spec fn is_int_bytes(s: Seq<u8>) -> bool {
    if s.len() > 0 && s[0] == 0x2D {
        is_digits(s.skip(1))
    } else {
        is_digits(s)
    }
}

/// The integer that a decimal byte sequence denotes.
pub open spec fn int_bytes_value(s: Seq<u8>) -> int {
    if s.len() > 0 && s[0] == 0x2D {
        -(digits_value(s.skip(1)) as int)
    } else {
        digits_value(s) as int
    }
}

/// A digit prefix denotes no more than the whole.
proof fn lemma_digits_prefix(s: Seq<u8>, i: int)
    requires
        0 <= i <= s.len(),
        forall|j: int| 0 <= j < s.len() ==> 0x30 <= #[trigger] s[j] <= 0x39,
    ensures
        digits_value(s.take(i)) <= digits_value(s),
    decreases s.len() - i,
{
    if i < s.len() {
        lemma_digits_prefix(s, i + 1);
        let t = s.take(i + 1);
        assert(t.drop_last() =~= s.take(i));
        assert(t.last() == s[i]);
        assert(0x30 <= t.last() <= 0x39);
        assert(digits_value(t) == digits_value(s.take(i)) * 10 + (t.last() - 0x30));
        assert(digits_value(s.take(i)) <= digits_value(t));
    } else {
        assert(s.take(i) =~= s);
    }
}

/// Parses an ASCII decimal integer.
pub fn parse_i32(s: &str) -> (r: i32)
    requires
        is_int_bytes(encode_utf8(s@)),
        i32::MIN <= int_bytes_value(encode_utf8(s@)) <= i32::MAX,
    ensures
        r == int_bytes_value(encode_utf8(s@)),
{
    let bytes = s.as_bytes();
    let n: usize = bytes.len();
    let negative = bytes[0] == 0x2D;
    let start: usize = if negative {
        1
    } else {
        0
    };
    let ghost digits = if negative {
        bytes@.skip(1)
    } else {
        bytes@
    };
    let ghost whole = int_bytes_value(encode_utf8(s@));
    proof {
        if negative {
            assert(digits_value(digits) <= i32::MAX as nat + 1);
        } else {
            assert(digits_value(digits) <= i32::MAX as nat);
        }
    }
    let mut val: i64 = 0;
    let mut i: usize = start;
    proof {
        assert(digits.take(0) =~= Seq::<u8>::empty());
    }
    while i < n
        invariant
            n == bytes@.len(),
            start <= i <= n,
            start == (if negative {
                1int
            } else {
                0int
            }),
            negative ==> digits =~= bytes@.skip(1),
            !negative ==> digits =~= bytes@,
            is_digits(digits),
            digits_value(digits) <= i32::MAX as nat + 1,
            val == digits_value(digits.take(i - start)),
            0 <= val,
        decreases n - i,
    {
        let d = bytes[i];
        proof {
            assert(digits[i - start as int] == bytes@[i as int]);
            lemma_digits_prefix(digits, i - start as int + 1);
            let t = digits.take(i - start as int + 1);
            assert(t.drop_last() =~= digits.take(i - start as int));
            assert(t.last() == d);
            assert(digits_value(t) == val * 10 + (d - 0x30));
        }
        val = val * 10 + ((d - 0x30) as i64);
        i = i + 1;
    }
    proof {
        assert(digits.take(n - start as int) =~= digits);
    }
    if negative {
        (-val) as i32
    } else {
        val as i32
    }
}

/// The value stored under a key, at the key's first occurrence.
pub open spec fn lookup_setting(s: Seq<(Setting, String)>, key: Setting) -> Option<Seq<char>>
    decreases s.len(),
{
    if s.len() == 0 {
        None
    } else if s[0].0 == key {
        Some(s[0].1@)
    } else {
        lookup_setting(s.skip(1), key)
    }
}

/// Reads a numeric setting out of a loaded key-value table.
pub fn setting_to_int(setting: Setting, settings: &Vec<(Setting, String)>) -> (r: i32)
    requires
        lookup_setting(settings@, setting) is Some,
        is_int_bytes(encode_utf8(lookup_setting(settings@, setting).unwrap())),
        i32::MIN <= int_bytes_value(encode_utf8(lookup_setting(settings@, setting).unwrap()))
            <= i32::MAX,
    ensures
        r == int_bytes_value(encode_utf8(lookup_setting(settings@, setting).unwrap())),
{
    let n: usize = settings.len();
    let mut i: usize = 0;
    proof {
        assert(settings@.skip(0) =~= settings@);
    }
    while i < n
        invariant
            n == settings@.len(),
            i <= n,
            lookup_setting(settings@.skip(i as int), setting) == lookup_setting(
                settings@,
                setting,
            ),
            lookup_setting(settings@, setting) is Some,
            is_int_bytes(encode_utf8(lookup_setting(settings@, setting).unwrap())),
            i32::MIN <= int_bytes_value(
                encode_utf8(lookup_setting(settings@, setting).unwrap()),
            ) <= i32::MAX,
        decreases n - i,
    {
        let ghost tail = settings@.skip(i as int);
        proof {
            assert(tail[0] == settings@[i as int]);
            assert(tail.skip(1) =~= settings@.skip(i as int + 1));
        }
        if settings[i].0 == setting {
            return parse_i32(settings[i].1.as_str());
        }
        i = i + 1;
    }
    proof {
        assert(settings@.skip(n as int).len() == 0);
        assert(false);
    }
    unreached()
}

} // verus!
