//! The diagnostics widget: warnings about peripherals, disks, the network and a
//! live stream, shown as one waybar line.

use vstd::prelude::*;
use crate::number::{parse_i32, parse_i32_chars};
use crate::text::{
    chars_of, contains, contains_chars, join, join_strings, lemma_join_lacks, lines, lines_of,
    none_contain, same_chars, string_views, trim, trim_end_char, trim_end_matching, trim_ws, views,
    words, words_of,
};
use crate::waybar::{lemma_waybar_line_is_one_line, waybar_json, waybar_line};

verus! {

/// The kind of machine the widget runs on.
#[derive(Clone, Copy, Debug, PartialEq, Eq, Structural)]
pub enum HostType {
    Desktop,
    Laptop,
}

/// The host type that the command-line argument names.
pub open spec fn host_type_named(arg: Seq<char>) -> Option<HostType> {
    if arg == "desktop"@ {
        Some(HostType::Desktop)
    } else if arg == "laptop"@ {
        Some(HostType::Laptop)
    } else {
        None
    }
}

/// Reads the host type from its name, `desktop` or `laptop`.
pub fn parse_host_type(arg: &str) -> (r: Option<HostType>)
    ensures
        r == host_type_named(arg@),
{
    let v = chars_of(arg);
    if same_chars(&v, &chars_of("desktop")) {
        Some(HostType::Desktop)
    } else if same_chars(&v, &chars_of("laptop")) {
        Some(HostType::Laptop)
    } else {
        None
    }
}

/// Bluetooth address of the headset.
pub const HEADSET_MAC: &'static str = "80:C3:BA:65:D6:34";

/// Bluetooth address of the mouse.
pub const MOUSE_MAC: &'static str = "D6:88:58:DA:5E:6D";

/// Bluetooth address of the game controller.
pub const CONTROLLER_MAC: &'static str = "A4:AE:12:C1:CE:44";

/// Warning: the headset battery is low.
pub open spec fn headset_warning() -> Seq<char> {
    "\u{f02cb} \u{f12a1}"@
}

/// Warning: the mouse battery is low.
pub open spec fn mouse_warning() -> Seq<char> {
    "\u{efba} \u{f12a1}"@
}

/// Warning: the controller battery is low.
pub open spec fn controller_warning() -> Seq<char> {
    "\u{f05ba} \u{f12a1}"@
}

/// Warning: a disk is nearly full.
pub open spec fn disk_warning() -> Seq<char> {
    "\u{ede9} "@
}

/// Warning: there is no internet connection.
pub open spec fn offline_warning() -> Seq<char> {
    "\u{f05a9} "@
}

/// Notice: the stream is live.
pub open spec fn live_notice() -> Seq<char> {
    "\u{f1214} "@
}

/// `warning` when `cond` holds, nothing otherwise.
pub open spec fn warn_if(cond: bool, warning: Seq<char>) -> Seq<Seq<char>> {
    if cond {
        seq![warning]
    } else {
        seq![]
    }
}

/// The desktop's warnings, in the order headset, mouse, controller.
pub open spec fn desktop_warnings(headset_low: bool, mouse_low: bool, controller_low: bool) -> Seq<
    Seq<char>,
> {
    warn_if(headset_low, headset_warning()) + warn_if(mouse_low, mouse_warning()) + warn_if(
        controller_low,
        controller_warning(),
    )
}

/// The warnings of every host, in the order disk, network, stream.
pub open spec fn common_warnings(disk_full: bool, internet_up: bool, stream_live: bool) -> Seq<
    Seq<char>,
> {
    warn_if(disk_full, disk_warning()) + warn_if(!internet_up, offline_warning()) + warn_if(
        stream_live,
        live_notice(),
    )
}

/// The desktop warnings for the given battery states of headset, mouse and controller.
pub fn diag_desktop(headset_low: bool, mouse_low: bool, controller_low: bool) -> (r: Vec<String>)
    ensures
        string_views(r@) == desktop_warnings(headset_low, mouse_low, controller_low),
{
    let mut warnings: Vec<String> = Vec::new();
    if headset_low {
        warnings.push("\u{f02cb} \u{f12a1}".to_owned());
    }
    if mouse_low {
        warnings.push("\u{efba} \u{f12a1}".to_owned());
    }
    if controller_low {
        warnings.push("\u{f05ba} \u{f12a1}".to_owned());
    }
    assert(string_views(warnings@) =~= desktop_warnings(headset_low, mouse_low, controller_low));
    warnings
}

/// The laptop has no warnings of its own.
pub fn diag_laptop() -> (r: Vec<String>)
    ensures
        r@.len() == 0,
{
    let warnings: Vec<String> = Vec::new();
    warnings
}

/// The warnings of every host: a disk over its threshold, no internet connection,
/// a live stream. Whether the home server answers does not change them.
pub fn diag_common(disk_full: bool, internet_up: bool, stream_live: bool) -> (r: Vec<String>)
    ensures
        string_views(r@) == common_warnings(disk_full, internet_up, stream_live),
{
    let mut warnings: Vec<String> = Vec::new();
    if disk_full {
        warnings.push("\u{ede9} ".to_owned());
    }
    if !internet_up {
        warnings.push("\u{f05a9} ".to_owned());
    }
    if stream_live {
        warnings.push("\u{f1214} ".to_owned());
    }
    assert(string_views(warnings@) =~= common_warnings(disk_full, internet_up, stream_live));
    warnings
}

/// The widget's line: the warnings separated by ` | `.
pub fn format_info(warnings: Vec<String>) -> (r: String)
    ensures
        r@ == waybar_line(join(string_views(warnings@), " | "@)),
{
    let text = join_strings(&warnings, " | ");
    waybar_json(text.as_str())
}


/// The number in the second white-space separated word of `line`, read after
/// dropping the `%` signs that end it.
pub open spec fn second_word_value(line: Seq<char>) -> Option<i32> {
    let w = words_of(line);
    if w.len() < 2 {
        None
    } else {
        parse_i32(trim_end_char(w[1], '%'))
    }
}

/// Reads the number in the second word of `line`.
pub fn second_word_value_of(line: &Vec<char>) -> (r: Option<i32>)
    ensures
        r == second_word_value(line@),
{
    let w = words(line);
    if w.len() < 2 {
        return None;
    }
    let word = trim_end_matching(&w[1], '%');
    parse_i32_chars(&word)
}

/// How many lines after each line that names the device the battery report
/// is searched (`grep -A 20`).
pub open spec fn lines_after_device() -> int {
    20
}

/// Line `i` is the line that names the device, or one of the twenty after such a line.
pub open spec fn near_device(lines: Seq<Seq<char>>, mac: Seq<char>, i: int) -> bool {
    exists|j: int|
        0 <= j <= i && i - j <= lines_after_device() && #[trigger] contains(lines[j], mac)
}

/// The charge that a `percentage:` line of the battery report gives.
pub open spec fn percentage_reading(line: Seq<char>) -> Option<i32> {
    if contains(line, "percentage:"@) {
        second_word_value(line)
    } else {
        None
    }
}

/// The first charge, from line `from` on, that a line near the device gives.
pub open spec fn first_battery_reading(lines: Seq<Seq<char>>, mac: Seq<char>, from: nat) -> Option<
    i32,
>
    decreases lines.len() - from,
{
    if from >= lines.len() {
        None
    } else if near_device(lines, mac, from as int) && percentage_reading(lines[from as int]) is Some {
        percentage_reading(lines[from as int])
    } else {
        first_battery_reading(lines, mac, from + 1)
    }
}

/// Below this charge a battery counts as low.
pub open spec fn low_battery_percent() -> int {
    20
}

/// The device `mac` reports a charge below 20 percent in the `upower -d` report:
/// the first charge read near the device decides; with none, the battery is not low.
pub open spec fn battery_is_low(report: Seq<char>, mac: Seq<char>) -> bool {
    match first_battery_reading(lines_of(report), mac, 0) {
        Some(p) => p < low_battery_percent(),
        None => false,
    }
}

/// Line `k` is near the device and a `percentage:` line whose second word, with its
/// `%` signs dropped, reads as a number.
pub open spec fn readable_charge_line(lines: Seq<Seq<char>>, mac: Seq<char>, k: int) -> bool {
    &&& near_device(lines, mac, k)
    &&& contains(lines[k], "percentage:"@)
    &&& words_of(lines[k]).len() >= 2
    &&& parse_i32(trim_end_char(words_of(lines[k])[1], '%')) is Some
}

proof fn lemma_first_reading_from(lines: Seq<Seq<char>>, mac: Seq<char>, from: nat, i: int)
    requires
        from <= i < lines.len(),
        readable_charge_line(lines, mac, i),
        forall|k: int| from <= k < i ==> !readable_charge_line(lines, mac, k),
    ensures
        first_battery_reading(lines, mac, from) == parse_i32(
            trim_end_char(words_of(lines[i])[1], '%'),
        ),
    decreases i - from,
{
    if from < i {
        assert(!readable_charge_line(lines, mac, from as int));
        lemma_first_reading_from(lines, mac, from + 1, i);
    }
}

proof fn lemma_no_reading_from(lines: Seq<Seq<char>>, mac: Seq<char>, from: nat)
    requires
        forall|k: int| from <= k < lines.len() ==> !readable_charge_line(lines, mac, k),
    ensures
        first_battery_reading(lines, mac, from) is None,
    decreases lines.len() - from,
{
    if from < lines.len() {
        assert(!readable_charge_line(lines, mac, from as int));
        lemma_no_reading_from(lines, mac, from + 1);
    }
}

/// The first readable charge near the device decides, whatever lines follow it:
/// if line `i` of the report is within twenty lines after a line naming the device,
/// is a `percentage:` line whose second word reads `p`, and no earlier such line
/// reads a number, the battery is low exactly when `p < 20`.
pub proof fn lemma_first_charge_decides(report: Seq<char>, mac: Seq<char>, i: int, p: i32)
    requires
        0 <= i < lines_of(report).len(),
        exists|j: int|
            0 <= j <= i && i - j <= 20 && #[trigger] contains(lines_of(report)[j], mac),
        contains(lines_of(report)[i], "percentage:"@),
        words_of(lines_of(report)[i]).len() >= 2,
        parse_i32(trim_end_char(words_of(lines_of(report)[i])[1], '%')) == Some(p),
        forall|k: int| 0 <= k < i ==> !readable_charge_line(lines_of(report), mac, k),
    ensures
        battery_is_low(report, mac) == (p < 20),
{
    let lines = lines_of(report);
    assert(readable_charge_line(lines, mac, i));
    lemma_first_reading_from(lines, mac, 0, i);
}

/// Without a readable charge near the device the battery does not count as low.
pub proof fn lemma_no_charge_not_low(report: Seq<char>, mac: Seq<char>)
    requires
        forall|k: int|
            0 <= k < lines_of(report).len() ==> !readable_charge_line(lines_of(report), mac, k),
    ensures
        !battery_is_low(report, mac),
{
    lemma_no_reading_from(lines_of(report), mac, 0);
}

/// Whether the `upower -d` report `report` shows the battery of device `mac` low.
pub fn battery_low(report: &str, mac: &str) -> (r: bool)
    ensures
        r == battery_is_low(report@, mac@),
{
    let text = chars_of(report);
    let device = chars_of(mac);
    let marker = chars_of("percentage:");
    let ls = lines(&text);
    let ghost all = lines_of(report@);
    let mut last: Option<usize> = None;
    let mut i: usize = 0;
    while i < ls.len()
        invariant
            views(ls@) == all,
            all == lines_of(report@),
            i <= ls.len(),
            device@ == mac@,
            marker@ == "percentage:"@,
            first_battery_reading(all, mac@, 0) == first_battery_reading(all, mac@, i as nat),
            match last {
                Some(j) => j < i && contains(all[j as int], mac@) && forall|k: int|
                    j < k < i ==> !contains(#[trigger] all[k], mac@),
                None => forall|k: int| 0 <= k < i ==> !contains(#[trigger] all[k], mac@),
            },
        decreases ls.len() - i,
    {
        let line = &ls[i];
        assert(line@ == all[i as int]);
        if contains_chars(line, &device) {
            last = Some(i);
        }
        let near = match last {
            Some(j) => i - j <= 20,
            None => false,
        };
        assert(near == near_device(all, mac@, i as int)) by {
            if !near {
                assert forall|j: int|
                    0 <= j <= i && i - j <= lines_after_device() implies !#[trigger] contains(
                    all[j],
                    mac@,
                ) by {
                    match last {
                        Some(l) => {
                            if j > l {
                                assert(j == i || (l < j < i));
                            }
                        },
                        None => {},
                    }
                }
            }
        }
        if near {
            if contains_chars(line, &marker) {
                match second_word_value_of(line) {
                    Some(p) => {
                        assert(percentage_reading(all[i as int]) == Some(p));
                        return p < 20;
                    },
                    None => {},
                }
            }
        }
        i += 1;
    }
    false
}

/// A line of the `df` report that is counted: a device path starting with `/` that
/// does not mention `/boot`.
pub open spec fn counted_mount(line: Seq<char>) -> bool {
    line.len() > 0 && line[0] == '/' && !contains(line, "/boot"@)
}

/// Above this use, in percent, a disk counts as full.
pub open spec fn full_disk_percent() -> int {
    80
}

/// A counted line whose second column reads a use above 80 percent.
pub open spec fn reports_full_disk(line: Seq<char>) -> bool {
    counted_mount(line) && match second_word_value(line) {
        Some(p) => p > full_disk_percent(),
        None => false,
    }
}

/// Some line of the `df --output=source,pcent,target` report shows a full disk.
pub open spec fn some_disk_full(report: Seq<char>) -> bool {
    exists|i: int| 0 <= i < lines_of(report).len() && reports_full_disk(#[trigger] lines_of(report)[i])
}

/// Every line that names a device path (it starts with `/`), does not mention
/// `/boot`, and has a second column that reads above 80 after its `%` signs are
/// dropped shows a full disk; and a full disk is shown only by such a line.
pub proof fn lemma_disk_full_iff_line(report: Seq<char>)
    ensures
        some_disk_full(report) <==> exists|i: int|
            0 <= i < lines_of(report).len() && {
                let line = #[trigger] lines_of(report)[i];
                &&& line.len() > 0
                &&& line[0] == '/'
                &&& !contains(line, "/boot"@)
                &&& words_of(line).len() >= 2
                &&& parse_i32(trim_end_char(words_of(line)[1], '%')) matches Some(p) && p > 80
            },
{
}

/// Adding lines to the `df` report never takes a full-disk finding back: if every
/// line of report `a` is also a line of report `b`, a full disk in `a` is one in `b`.
pub proof fn lemma_disk_full_survives_more_lines(a: Seq<char>, b: Seq<char>)
    requires
        forall|i: int|
            0 <= i < lines_of(a).len() ==> exists|j: int|
                0 <= j < lines_of(b).len() && lines_of(b)[j] == #[trigger] lines_of(a)[i],
    ensures
        some_disk_full(a) ==> some_disk_full(b),
{
    if some_disk_full(a) {
        let i = choose|i: int|
            0 <= i < lines_of(a).len() && reports_full_disk(#[trigger] lines_of(a)[i]);
        let j = choose|j: int| 0 <= j < lines_of(b).len() && lines_of(b)[j] == lines_of(a)[i];
        assert(reports_full_disk(lines_of(b)[j]));
    }
}

/// Whether the `df` report shows a disk above 80 percent use.
pub fn any_disk_full(report: &str) -> (r: bool)
    ensures
        r == some_disk_full(report@),
{
    let text = chars_of(report);
    let boot = chars_of("/boot");
    let ls = lines(&text);
    let ghost all = lines_of(report@);
    let mut i: usize = 0;
    while i < ls.len()
        invariant
            views(ls@) == all,
            all == lines_of(report@),
            i <= ls.len(),
            boot@ == "/boot"@,
            forall|k: int| 0 <= k < i ==> !reports_full_disk(#[trigger] all[k]),
        decreases ls.len() - i,
    {
        let line = &ls[i];
        assert(line@ == all[i as int]);
        if line.len() > 0 && line[0] == '/' && !contains_chars(line, &boot) {
            match second_word_value_of(line) {
                Some(p) => {
                    if p > 80 {
                        assert(reports_full_disk(all[i as int]));
                        return true;
                    }
                },
                None => {},
            }
        }
        i += 1;
    }
    false
}

/// The home server answered `200`, maybe with white space around it.
pub open spec fn status_is_ok(status: Seq<char>) -> bool {
    trim_ws(status) == "200"@
}

/// Whether the status code that `curl` printed is `200`.
pub fn homelab_ok(status: &str) -> (r: bool)
    ensures
        r == status_is_ok(status@),
{
    let v = chars_of(status);
    let t = trim(&v);
    same_chars(&t, &chars_of("200"))
}


proof fn lemma_warn_if_one_line(cond: bool, warning: Seq<char>)
    requires
        !warning.contains('\n'),
    ensures
        none_contain(warn_if(cond, warning), '\n'),
{
}

proof fn lemma_none_contain_concat(a: Seq<Seq<char>>, b: Seq<Seq<char>>)
    requires
        none_contain(a, '\n'),
        none_contain(b, '\n'),
    ensures
        none_contain(a + b, '\n'),
{
    assert forall|i: int| 0 <= i < (a + b).len() implies !(#[trigger] (a + b)[i]).contains('\n') by {
        if i < a.len() {
            assert((a + b)[i] == a[i]);
        } else {
            assert((a + b)[i] == b[i - a.len()]);
        }
    }
}

proof fn lemma_warnings_one_line(
    headset_low: bool,
    mouse_low: bool,
    controller_low: bool,
    disk_full: bool,
    internet_up: bool,
    stream_live: bool,
)
    ensures
        none_contain(
            desktop_warnings(headset_low, mouse_low, controller_low) + common_warnings(
                disk_full,
                internet_up,
                stream_live,
            ),
            '\n',
        ),
        none_contain(common_warnings(disk_full, internet_up, stream_live), '\n'),
{
    assert(!headset_warning().contains('\n')) by {
        reveal_strlit("\u{f02cb} \u{f12a1}");
        assert forall|i: int| 0 <= i < headset_warning().len() implies headset_warning()[i] != '\n' by {}
    }
    assert(!mouse_warning().contains('\n')) by {
        reveal_strlit("\u{efba} \u{f12a1}");
        assert forall|i: int| 0 <= i < mouse_warning().len() implies mouse_warning()[i] != '\n' by {}
    }
    assert(!controller_warning().contains('\n')) by {
        reveal_strlit("\u{f05ba} \u{f12a1}");
        assert forall|i: int|
            0 <= i < controller_warning().len() implies controller_warning()[i] != '\n' by {}
    }
    assert(!disk_warning().contains('\n')) by {
        reveal_strlit("\u{ede9} ");
        assert forall|i: int| 0 <= i < disk_warning().len() implies disk_warning()[i] != '\n' by {}
    }
    assert(!offline_warning().contains('\n')) by {
        reveal_strlit("\u{f05a9} ");
        assert forall|i: int| 0 <= i < offline_warning().len() implies offline_warning()[i] != '\n' by {}
    }
    assert(!live_notice().contains('\n')) by {
        reveal_strlit("\u{f1214} ");
        assert forall|i: int| 0 <= i < live_notice().len() implies live_notice()[i] != '\n' by {}
    }
    let h = warn_if(headset_low, headset_warning());
    let m = warn_if(mouse_low, mouse_warning());
    let c = warn_if(controller_low, controller_warning());
    let d = warn_if(disk_full, disk_warning());
    let o = warn_if(!internet_up, offline_warning());
    let l = warn_if(stream_live, live_notice());
    lemma_warn_if_one_line(headset_low, headset_warning());
    lemma_warn_if_one_line(mouse_low, mouse_warning());
    lemma_warn_if_one_line(controller_low, controller_warning());
    lemma_warn_if_one_line(disk_full, disk_warning());
    lemma_warn_if_one_line(!internet_up, offline_warning());
    lemma_warn_if_one_line(stream_live, live_notice());
    lemma_none_contain_concat(h, m);
    lemma_none_contain_concat(h + m, c);
    lemma_none_contain_concat(d, o);
    lemma_none_contain_concat(d + o, l);
    lemma_none_contain_concat(h + m + c, d + o + l);
}

/// The widget writes one line per refresh: whatever the checks found, on the
/// desktop and on the laptop, the waybar line holds no line feed.
pub proof fn lemma_diagnostics_line_is_one_line(
    headset_low: bool,
    mouse_low: bool,
    controller_low: bool,
    disk_full: bool,
    internet_up: bool,
    stream_live: bool,
)
    ensures
        !waybar_line(
            join(
                desktop_warnings(headset_low, mouse_low, controller_low) + common_warnings(
                    disk_full,
                    internet_up,
                    stream_live,
                ),
                " | "@,
            ),
        ).contains('\n'),
        !waybar_line(join(common_warnings(disk_full, internet_up, stream_live), " | "@)).contains(
            '\n',
        ),
{
    lemma_warnings_one_line(headset_low, mouse_low, controller_low, disk_full, internet_up, stream_live);
    reveal_strlit(" | ");
    assert(!" | "@.contains('\n')) by {
        assert forall|i: int| 0 <= i < " | "@.len() implies " | "@[i] != '\n' by {}
    }
    let ws = desktop_warnings(headset_low, mouse_low, controller_low) + common_warnings(
        disk_full,
        internet_up,
        stream_live,
    );
    let cs = common_warnings(disk_full, internet_up, stream_live);
    lemma_join_lacks(ws, " | "@, '\n');
    lemma_join_lacks(cs, " | "@, '\n');
    lemma_waybar_line_is_one_line(join(ws, " | "@));
    lemma_waybar_line_is_one_line(join(cs, " | "@));
}

} // verus!
