//! The resource widget: use, temperature and memory of the CPU or the GPU, shown as
//! one waybar line.

use vstd::prelude::*;
use crate::number::{
    decimal, decimal_chars, lemma_decimal_chars, lemma_decimal_is_one_line, lemma_parse_reads_decimal,
    parse_i32, parse_i32_chars,
};
use crate::text::{
    chars_of, lemma_concat_lacks, lemma_remove_all_absent, lemma_remove_all_char_concat,
    lemma_split_on_absent, lemma_split_on_concat, lemma_trim_untouched, remove_all, remove_matches, same_chars, split_chars, split_on, string_of, trim,
    trim_ws, views, is_ws,
};
use crate::waybar::{lemma_waybar_line_is_one_line, waybar_json, waybar_line};

verus! {

/// The device the widget watches.
#[derive(Clone, Copy, Debug, PartialEq, Eq, Structural)]
#[allow(clippy::upper_case_acronyms)]
pub enum Device {
    CPU,
    GPU,
}

/// The device that the command-line argument names.
pub open spec fn device_named(arg: Seq<char>) -> Option<Device> {
    if arg == "CPU"@ {
        Some(Device::CPU)
    } else if arg == "GPU"@ {
        Some(Device::GPU)
    } else {
        None
    }
}

/// Reads the device from its name, `CPU` or `GPU`.
pub fn parse_device(arg: &str) -> (r: Option<Device>)
    ensures
        r == device_named(arg@),
{
    let v = chars_of(arg);
    if same_chars(&v, &chars_of("CPU")) {
        Some(Device::CPU)
    } else if same_chars(&v, &chars_of("GPU")) {
        Some(Device::GPU)
    } else {
        None
    }
}

/// The icon of the device.
pub open spec fn device_icon(device: Device) -> Seq<char> {
    match device {
        Device::CPU => "\u{f4bc}"@,
        Device::GPU => "\u{f08ae}"@,
    }
}

/// A space before the temperature when the use has a single digit, so that the
/// columns stay in place.
pub open spec fn usage_spacer(usage: i32) -> Seq<char> {
    if usage >= 10 {
        ""@
    } else {
        " "@
    }
}

/// The text of the widget: icon, use in percent, temperature in degrees Celsius and
/// memory in percent, with the thin spaces that the bar's font needs.
pub open spec fn resource_text(device: Device, usage: i32, temp: i32, mem: i32) -> Seq<char> {
    device_icon(device) + "\u{2009} <b>"@ + decimal(usage as int) + "%</b> "@ + usage_spacer(usage)
        + decimal(temp as int) + "\u{b0}C\u{200a}<b>|</b>\u{200a}"@ + decimal(mem as int)
        + "%\u{2009}\u{2004}\u{efc5}\u{2004}"@
}

fn decimal_string(n: i32) -> (r: String)
    ensures
        r@ == decimal(n as int),
{
    string_of(&decimal_chars(n as i64))
}

/// The widget's line for `device` with the given use, temperature and memory.
pub fn format_info(device_type: &Device, usage: i32, temp: i32, mem: i32) -> (r: String)
    ensures
        r@ == waybar_line(resource_text(*device_type, usage, temp, mem)),
{
    let mut body = match device_type {
        Device::CPU => "\u{f4bc}".to_owned(),
        Device::GPU => "\u{f08ae}".to_owned(),
    };
    body.append("\u{2009} <b>");
    body.append(decimal_string(usage).as_str());
    body.append("%</b> ");
    if usage >= 10 {
        body.append("");
    } else {
        body.append(" ");
    }
    body.append(decimal_string(temp).as_str());
    body.append("\u{b0}C\u{200a}<b>|</b>\u{200a}");
    body.append(decimal_string(mem).as_str());
    body.append("%\u{2009}\u{2004}\u{efc5}\u{2004}");
    assert(body@ =~= resource_text(*device_type, usage, temp, mem));
    waybar_json(body.as_str())
}

/// `total` as the `i64` that `total as i64` gives.
pub open spec fn as_signed(total: u64) -> int {
    if total <= i64::MAX {
        total as int
    } else {
        total - 0x1_0000_0000_0000_0000
    }
}

/// The memory in use, in percent, as `(100 * used as i64 / total as i64) as i32`
/// computes it: the quotient rounds toward zero, and the cast keeps the low 32 bits.
pub open spec fn memory_percent_of(used: u64, total: u64) -> i32 {
    let a = 100 * used;
    let t = as_signed(total);
    let q = if t > 0 {
        a / t
    } else {
        -(a / (-t))
    };
    q as i32
}

/// The share of memory in use, in percent, from the used and the total byte counts.
pub fn memory_percent(used: u64, total: u64) -> (r: i32)
    requires
        100 * used <= i64::MAX,
        total != 0,
    ensures
        r == memory_percent_of(used, total),
{
    let a: u64 = 100 * used;
    let q: i64 = if total <= 9223372036854775807u64 {
        (a / total) as i64
    } else {
        let m: u64 = (18446744073709551615u64 - total) + 1;
        assert(m == -as_signed(total));
        -((a / m) as i64)
    };
    q as i32
}

/// Why the GPU readings could not be read.
#[derive(Clone, Copy, Debug, PartialEq, Eq, Structural)]
pub enum GpuReadError {
    /// A line is not an integer once trimmed and stripped of quotes.
    NotAnInteger,
    /// There are fewer than two lines.
    TooFewValues,
}

/// A line of the selected `rocm-smi` output read as an integer, after trimming it
/// and removing its double quotes.
pub open spec fn gpu_field_value(field: Seq<char>) -> Option<i32> {
    parse_i32(remove_all(trim_ws(field), "\""@))
}

/// GPU use and VRAM use, in percent, from the two lines that `jq` selected from the
/// `rocm-smi` report: every line must read as an integer, and there must be two.
pub open spec fn gpu_readings(selected: Seq<char>) -> Result<(i32, i32), GpuReadError> {
    let fields = split_on(selected, '\n');
    if exists|i: int| 0 <= i < fields.len() && #[trigger] gpu_field_value(fields[i]) is None {
        Err(GpuReadError::NotAnInteger)
    } else if fields.len() < 2 {
        Err(GpuReadError::TooFewValues)
    } else {
        Ok((gpu_field_value(fields[0])->0, gpu_field_value(fields[1])->0))
    }
}

proof fn lemma_gpu_field_reads(n: i32, quoted: bool)
    ensures
        gpu_field_value(
            if quoted {
                seq!['"'] + decimal(n as int) + seq!['"']
            } else {
                decimal(n as int)
            },
        ) == Some(n),
        !(if quoted {
            seq!['"'] + decimal(n as int) + seq!['"']
        } else {
            decimal(n as int)
        }).contains('\n'),
{
    let d = decimal(n as int);
    lemma_decimal_chars(n as int);
    lemma_decimal_is_one_line(n as int);
    lemma_parse_reads_decimal(n);
    reveal_strlit("\"");
    let q = "\""@;
    assert(q =~= seq!['"']);
    assert(!d.contains('"')) by {
        assert forall|i: int| 0 <= i < d.len() implies d[i] != '"' by {
            assert(crate::number::is_digit(d[i]) || d[i] == '-');
        }
    }
    assert(!is_ws(d[0])) by {
        assert(crate::number::is_digit(d[0]) || d[0] == '-');
    }
    assert(!is_ws(d.last())) by {
        assert(crate::number::is_digit(d[d.len() - 1]) || d[d.len() - 1] == '-');
    }
    lemma_remove_all_absent(d, q, 0);
    if quoted {
        let f = seq!['"'] + d + seq!['"'];
        assert(f[0] == '"');
        assert(f.last() == '"');
        lemma_trim_untouched(f);
        lemma_remove_all_char_concat(seq!['"'], d + seq!['"'], q);
        lemma_remove_all_char_concat(d, seq!['"'], q);
        assert(seq!['"'] + d + seq!['"'] =~= seq!['"'] + (d + seq!['"']));
        assert(remove_all(seq!['"'], q) =~= Seq::<char>::empty()) by {
            let e = Seq::<char>::empty();
            assert(remove_all(e, q) == e);
            assert(seq!['"'].take(1) =~= q);
            assert(seq!['"'].skip(1) =~= e);
            assert(remove_all(seq!['"'], q) == remove_all(seq!['"'].skip(1), q));
        }
        assert(remove_all(f, q) =~= d);
        assert(!f.contains('\n')) by {
            assert forall|i: int| 0 <= i < f.len() implies f[i] != '\n' by {
                if 0 < i < f.len() - 1 {
                    assert(f[i] == d[i - 1]);
                }
            }
        }
    } else {
        lemma_trim_untouched(d);
    }
}

/// Two lines that each hold an integer in decimal, quoted as `rocm-smi` prints it or
/// not, read as that GPU use and that VRAM use, whatever the integers (`0` included).
pub proof fn lemma_gpu_reads_two_integers(use_pct: i32, vram_pct: i32, quoted: bool)
    ensures
        gpu_readings(
            (if quoted {
                seq!['"'] + decimal(use_pct as int) + seq!['"']
            } else {
                decimal(use_pct as int)
            }) + seq!['\n'] + (if quoted {
                seq!['"'] + decimal(vram_pct as int) + seq!['"']
            } else {
                decimal(vram_pct as int)
            }),
        ) == Ok::<(i32, i32), GpuReadError>((use_pct, vram_pct)),
{
    let a = if quoted {
        seq!['"'] + decimal(use_pct as int) + seq!['"']
    } else {
        decimal(use_pct as int)
    };
    let b = if quoted {
        seq!['"'] + decimal(vram_pct as int) + seq!['"']
    } else {
        decimal(vram_pct as int)
    };
    lemma_gpu_field_reads(use_pct, quoted);
    lemma_gpu_field_reads(vram_pct, quoted);
    lemma_split_on_concat(a, b, '\n');
    lemma_split_on_absent(a, '\n');
    lemma_split_on_absent(b, '\n');
    let fields = split_on(a + seq!['\n'] + b, '\n');
    assert(fields =~= seq![a, b]);
    assert(forall|i: int| 0 <= i < fields.len() ==> #[trigger] gpu_field_value(fields[i]) is Some);
}

/// Reads the GPU use and VRAM use from the selected `rocm-smi` output.
pub fn parse_gpu_info(selected: &str) -> (r: Result<(i32, i32), GpuReadError>)
    ensures
        r == gpu_readings(selected@),
{
    let text = chars_of(selected);
    let quote = chars_of("\"");
    let fields = split_chars(&text, '\n');
    let ghost all = split_on(selected@, '\n');
    let mut values: Vec<i32> = Vec::new();
    let mut i: usize = 0;
    while i < fields.len()
        invariant
            views(fields@) == all,
            all == split_on(selected@, '\n'),
            quote@ == "\""@,
            i <= fields.len(),
            values@.len() == i,
            forall|k: int| 0 <= k < i ==> gpu_field_value(#[trigger] all[k]) == Some(values@[k]),
        decreases fields.len() - i,
    {
        let field = &fields[i];
        assert(field@ == all[i as int]);
        let cleaned = remove_matches(&trim(field), &quote);
        match parse_i32_chars(&cleaned) {
            Some(v) => {
                values.push(v);
            },
            None => {
                assert(gpu_field_value(all[i as int]) is None);
                return Err(GpuReadError::NotAnInteger);
            },
        }
        i += 1;
    }
    if values.len() < 2 {
        return Err(GpuReadError::TooFewValues);
    }
    assert(gpu_field_value(all[0]) == Some(values@[0]));
    assert(gpu_field_value(all[1]) == Some(values@[1]));
    Ok((values[0], values[1]))
}


/// The widget writes one line per refresh: whatever the readings, the waybar line
/// holds no line feed.
pub proof fn lemma_resource_line_is_one_line(device: Device, usage: i32, temp: i32, mem: i32)
    ensures
        !waybar_line(resource_text(device, usage, temp, mem)).contains('\n'),
{
    let icon = device_icon(device);
    let a = "\u{2009} <b>"@;
    let b = "%</b> "@;
    let sp = usage_spacer(usage);
    let c = "\u{b0}C\u{200a}<b>|</b>\u{200a}"@;
    let e = "%\u{2009}\u{2004}\u{efc5}\u{2004}"@;
    assert(!icon.contains('\n')) by {
        reveal_strlit("\u{f4bc}");
        reveal_strlit("\u{f08ae}");
        assert forall|i: int| 0 <= i < icon.len() implies icon[i] != '\n' by {}
    }
    assert(!a.contains('\n')) by {
        reveal_strlit("\u{2009} <b>");
        assert forall|i: int| 0 <= i < a.len() implies a[i] != '\n' by {}
    }
    assert(!b.contains('\n')) by {
        reveal_strlit("%</b> ");
        assert forall|i: int| 0 <= i < b.len() implies b[i] != '\n' by {}
    }
    assert(!sp.contains('\n')) by {
        reveal_strlit("");
        reveal_strlit(" ");
        assert forall|i: int| 0 <= i < sp.len() implies sp[i] != '\n' by {}
    }
    assert(!c.contains('\n')) by {
        reveal_strlit("\u{b0}C\u{200a}<b>|</b>\u{200a}");
        assert forall|i: int| 0 <= i < c.len() implies c[i] != '\n' by {}
    }
    assert(!e.contains('\n')) by {
        reveal_strlit("%\u{2009}\u{2004}\u{efc5}\u{2004}");
        assert forall|i: int| 0 <= i < e.len() implies e[i] != '\n' by {}
    }
    let du = decimal(usage as int);
    let dt = decimal(temp as int);
    let dm = decimal(mem as int);
    lemma_decimal_is_one_line(usage as int);
    lemma_decimal_is_one_line(temp as int);
    lemma_decimal_is_one_line(mem as int);
    lemma_concat_lacks(icon, a, '\n');
    lemma_concat_lacks(icon + a, du, '\n');
    lemma_concat_lacks(icon + a + du, b, '\n');
    lemma_concat_lacks(icon + a + du + b, sp, '\n');
    lemma_concat_lacks(icon + a + du + b + sp, dt, '\n');
    lemma_concat_lacks(icon + a + du + b + sp + dt, c, '\n');
    lemma_concat_lacks(icon + a + du + b + sp + dt + c, dm, '\n');
    lemma_concat_lacks(icon + a + du + b + sp + dt + c + dm, e, '\n');
    lemma_waybar_line_is_one_line(resource_text(device, usage, temp, mem));
}

} // verus!
