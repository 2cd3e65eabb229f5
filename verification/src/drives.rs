//! Removable drives: how a volume is described and ordered, its label, and
//! the decisions of the eject sequence.

use vstd::prelude::*;
use crate::text::{chars_of, string_of, push_all, stable_order, is_stable_order, sorts_before, bytes_lt};
use vstd::utf8::encode_utf8;
use vstd::string::StringSliceAdditionalSpecFns;

verus! {

/// A mounted volume as shown in the device list.
#[derive(Debug)]
pub struct DriveInfo {
    pub mount_point: String,
    pub drive_type: String,
    pub label: String,
    pub available: bool,
}

/// What the operating system reports of a volume's kind.
#[derive(Clone, Copy, Debug)]
pub struct DriveFlags {
    pub removable: bool,
    pub fixed: bool,
    pub remote: bool,
    pub cdrom: bool,
    pub ramdisk: bool,
}

/// The kind shown for a volume: the first that applies of removable,
/// fixed, network, cdrom and ramdisk, else unknown.
pub open spec fn drive_type_text(f: DriveFlags) -> Seq<char> {
    if f.removable {
        "removable"@
    } else if f.fixed {
        "fixed"@
    } else if f.remote {
        "network"@
    } else if f.cdrom {
        "cdrom"@
    } else if f.ramdisk {
        "ramdisk"@
    } else {
        "unknown"@
    }
}

fn text(s: &str) -> (r: String)
    ensures
        r@ == s@,
{
    s.to_owned()
}

/// The kind shown for a volume.
pub fn drive_type_name(f: DriveFlags) -> (r: String)
    ensures
        r@ == drive_type_text(f),
{
    if f.removable {
        text("removable")
    } else if f.fixed {
        text("fixed")
    } else if f.remote {
        text("network")
    } else if f.cdrom {
        text("cdrom")
    } else if f.ramdisk {
        text("ramdisk")
    } else {
        text("unknown")
    }
}

/// The mount point of a drive letter: `X:\`.
pub open spec fn mount_of(letter: char) -> Seq<char> {
    seq![letter, ':', '\\']
}

/// The label of a drive: with no volume name the mount point, marked
/// ` (可移动)` when removable; otherwise `name (X)`, followed by ` 可移动`
/// when removable.
pub open spec fn drive_label(letter: char, volume_name: Seq<char>, removable: bool) -> Seq<char> {
    if volume_name.len() == 0 {
        mount_of(letter) + if removable {
            " (可移动)"@
        } else {
            Seq::empty()
        }
    } else {
        volume_name + seq![' ', '(', letter, ')'] + if removable {
            " 可移动"@
        } else {
            Seq::empty()
        }
    }
}

/// The entry of drive letter `letter`, given what the system reports of it
/// and its volume name (empty when it has none).
pub fn windows_drive(letter: char, flags: DriveFlags, volume_name: &str) -> (d: DriveInfo)
    ensures
        d.mount_point@ == mount_of(letter),
        d.drive_type@ == drive_type_text(flags),
        d.label@ == drive_label(letter, volume_name@, flags.removable),
        d.available,
{
    let mut m: Vec<char> = Vec::new();
    m.push(letter);
    m.push(':');
    m.push('\\');
    assert(m@ =~= mount_of(letter));
    let vn = chars_of(volume_name);
    let mut label: Vec<char> = Vec::new();
    if vn.len() == 0 {
        push_all(&mut label, &m);
        if flags.removable {
            let suffix = chars_of(" (可移动)");
            push_all(&mut label, &suffix);
        }
    } else {
        push_all(&mut label, &vn);
        label.push(' ');
        label.push('(');
        label.push(letter);
        label.push(')');
        if flags.removable {
            let suffix = chars_of(" 可移动");
            push_all(&mut label, &suffix);
        }
    }
    assert(label@ =~= drive_label(letter, volume_name@, flags.removable));
    DriveInfo {
        mount_point: string_of(m.as_slice()),
        drive_type: drive_type_name(flags),
        label: string_of(label.as_slice()),
        available: true,
    }
}

/// Sort key of a drive: removable drives first, then by mount point.
pub open spec fn drive_key(d: DriveInfo) -> Seq<u8> {
    seq![if d.drive_type@ == "removable"@ {
        0u8
    } else {
        1u8
    }] + encode_utf8(d.mount_point@)
}

/// Sort keys of the drives, in their order.
pub open spec fn drive_keys(ds: Seq<DriveInfo>) -> Seq<Seq<u8>> {
    ds.map_values(|d: DriveInfo| drive_key(d))
}

/// Whether two texts are equal.
fn same_text(a: &str, b: &str) -> (r: bool)
    ensures
        r == (a@ == b@),
{
    let x = chars_of(a);
    let y = chars_of(b);
    if x.len() != y.len() {
        return false;
    }
    let mut i: usize = 0;
    while i < x.len()
        invariant
            x.len() == y.len(),
            x@ == a@,
            y@ == b@,
            0 <= i <= x.len(),
            forall|k: int| 0 <= k < i ==> x@[k] == y@[k],
        decreases x.len() - i,
    {
        if x[i] != y[i] {
            assert(x@[i as int] != y@[i as int]);
            return false;
        }
        i += 1;
    }
    assert(x@ =~= y@);
    true
}

fn copy_drive(d: &DriveInfo) -> (r: DriveInfo)
    ensures
        r.mount_point@ == d.mount_point@,
        r.drive_type@ == d.drive_type@,
        r.label@ == d.label@,
        r.available == d.available,
{
    DriveInfo {
        mount_point: d.mount_point.clone(),
        drive_type: d.drive_type.clone(),
        label: d.label.clone(),
        available: d.available,
    }
}

/// The drives in display order: removable drives first, then by mount
/// point; drives that compare equal keep their order.
pub fn sort_drives(drives: &Vec<DriveInfo>) -> (r: Vec<DriveInfo>)
    ensures
        r@.len() == drives@.len(),
        exists|perm: Seq<usize>|
            #[trigger] is_stable_order(drive_keys(drives@), perm)
                && forall|k: int|
                0 <= k < perm.len() ==> {
                    let s = #[trigger] r@[k];
                    let o = drives@[perm[k] as int];
                    &&& s.mount_point@ == o.mount_point@
                    &&& s.drive_type@ == o.drive_type@
                    &&& s.label@ == o.label@
                    &&& s.available == o.available
                },
        forall|i: int, j: int|
            0 <= i < j < r@.len() && (#[trigger] r@[j]).drive_type@ == "removable"@ ==> (
            #[trigger] r@[i]).drive_type@ == "removable"@,
{
    let mut keys: Vec<Vec<u8>> = Vec::new();
    let mut i: usize = 0;
    while i < drives.len()
        invariant
            0 <= i <= drives.len(),
            keys@.len() == i,
            forall|k: int| 0 <= k < i ==> #[trigger] keys@[k]@ == drive_key(drives@[k]),
        decreases drives.len() - i,
    {
        let d = &drives[i];
        let mut key: Vec<u8> = Vec::new();
        key.push(if same_text(d.drive_type.as_str(), "removable") {
            0u8
        } else {
            1u8
        });
        let b = d.mount_point.as_str().as_bytes();
        let mut j: usize = 0;
        while j < b.len()
            invariant
                0 <= j <= b.len(),
                key@.len() == j + 1,
                key@[0] == (if d.drive_type@ == "removable"@ {
                    0u8
                } else {
                    1u8
                }),
                forall|t: int| 0 <= t < j ==> #[trigger] key@[t + 1] == b@[t],
            decreases b.len() - j,
        {
            key.push(b[j]);
            j += 1;
        }
        assert(b@ == encode_utf8(drives@[i as int].mount_point@));
        assert forall|t: int| 1 <= t < key@.len() implies key@[t] == (seq![key@[0]] + b@)[t] by {
            assert(key@[(t - 1) + 1] == b@[t - 1]);
        }
        assert(key@ =~= seq![key@[0]] + b@);
        assert(key@ =~= drive_key(drives@[i as int]));
        keys.push(key);
        i += 1;
    }
    let perm = stable_order(&keys);
    assert(keys@.map_values(|k: Vec<u8>| k@) =~= drive_keys(drives@));
    let mut out: Vec<DriveInfo> = Vec::new();
    let mut k: usize = 0;
    while k < perm.len()
        invariant
            0 <= k <= perm.len(),
            perm@.len() == drives@.len(),
            forall|t: int| 0 <= t < perm@.len() ==> #[trigger] perm@[t] < drives@.len(),
            out@.len() == k,
            forall|t: int|
                0 <= t < k ==> {
                    let s = #[trigger] out@[t];
                    let o = drives@[perm@[t] as int];
                    &&& s.mount_point@ == o.mount_point@
                    &&& s.drive_type@ == o.drive_type@
                    &&& s.label@ == o.label@
                    &&& s.available == o.available
                },
        decreases perm.len() - k,
    {
        out.push(copy_drive(&drives[perm[k]]));
        k += 1;
    }
    let ghost ks = drive_keys(drives@);
    assert(is_stable_order(ks, perm@));
    assert forall|i: int, j: int|
        0 <= i < j < out@.len() && (#[trigger] out@[j]).drive_type@ == "removable"@ implies (
        #[trigger] out@[i]).drive_type@ == "removable"@ by {
        let a = perm@[i] as int;
        let b = perm@[j] as int;
        assert(sorts_before(ks, a, b));
        assert(ks[b][0] == 0u8);
        if ks[a][0] != 0u8 {
            assert(!bytes_lt(ks[a], ks[b]));
            assert(ks[a] != ks[b]);
        }
    }
    out
}

/// The entry of a volume mounted under `/Volumes`: hidden volumes (names
/// starting with `.`) are left out; the others are listed as removable,
/// labelled with their name.
pub fn macos_drive(name: String, path: String) -> (r: Option<DriveInfo>)
    ensures
        name@.len() > 0 && name@[0] == '.' ==> r is None,
        !(name@.len() > 0 && name@[0] == '.') ==> (r matches Some(d) && d.mount_point@ == path@
            && d.drive_type@ == "removable"@ && d.label@ == name@ && d.available),
{
    let v = chars_of(name.as_str());
    if v.len() > 0 && v[0] == '.' {
        None
    } else {
        Some(DriveInfo { mount_point: path, drive_type: text("removable"), label: name, available: true })
    }
}

/// What std's `String::from_utf16_lossy` decodes: surrogate pairs combine
/// into one character, unpaired surrogates become U+FFFD.
pub open spec fn utf16_lossy(u: Seq<u16>) -> Seq<char>
    decreases u.len(),
{
    if u.len() == 0 {
        Seq::empty()
    } else if 0xD800 <= u[0] < 0xDC00 && u.len() >= 2 && 0xDC00 <= u[1] < 0xE000 {
        seq![(0x10000 + (u[0] - 0xD800) * 0x400 + (u[1] - 0xDC00)) as char] + utf16_lossy(
            u.skip(2),
        )
    } else if 0xD800 <= u[0] < 0xE000 {
        seq!['\u{FFFD}'] + utf16_lossy(u.drop_first())
    } else {
        seq![(u[0] as int) as char] + utf16_lossy(u.drop_first())
    }
}

/// Decodes UTF-16 with std's `String::from_utf16_lossy`.
///
/// Trusted: the decoding that std documents (invalid data replaced by
/// U+FFFD), stated by [`utf16_lossy`].
#[verifier::external_body]
fn from_utf16_lossy(u: &[u16]) -> (r: String)
    ensures
        r@ == utf16_lossy(u@),
{
    String::from_utf16_lossy(u)
}

/// Index of the first 0 of `u`, or its length.
pub open spec fn nul_terminated_len(u: Seq<u16>) -> int
    decreases u.len(),
{
    if u.len() == 0 {
        0
    } else if u[0] == 0 {
        0
    } else {
        1 + nul_terminated_len(u.drop_first())
    }
}

proof fn lemma_nul_len(u: Seq<u16>, i: int)
    requires
        0 <= i <= u.len(),
        forall|k: int| 0 <= k < i ==> u[k] != 0,
        i < u.len() ==> u[i] == 0,
    ensures
        nul_terminated_len(u) == i,
    decreases i,
{
    if i > 0 {
        assert forall|k: int| 0 <= k < i - 1 implies u.drop_first()[k] != 0 by {
            assert(u.drop_first()[k] == u[k + 1]);
        }
        lemma_nul_len(u.drop_first(), i - 1);
    }
}

/// The volume name held in a UTF-16 buffer filled by the system: the
/// characters before the first NUL (or the whole buffer), decoded with
/// unpaired surrogates replaced.
pub fn volume_label(buf: &[u16]) -> (r: String)
    ensures
        r@ == utf16_lossy(buf@.take(nul_terminated_len(buf@))),
{
    let mut n: usize = 0;
    while n < buf.len() && buf[n] != 0
        invariant
            0 <= n <= buf.len(),
            forall|k: int| 0 <= k < n ==> buf@[k] != 0,
        decreases buf.len() - n,
    {
        n += 1;
    }
    proof {
        lemma_nul_len(buf@, n as int);
    }
    let part = &buf[0..n];
    assert(part@ =~= buf@.take(n as int));
    from_utf16_lossy(part)
}

/// `s` without its trailing `c` characters, as `str::trim_end_matches`
/// with a character pattern gives it.
pub open spec fn trim_end_char(s: Seq<char>, c: char) -> Seq<char>
    decreases s.len(),
{
    if s.len() > 0 && s.last() == c {
        trim_end_char(s.drop_last(), c)
    } else {
        s
    }
}

fn trim_end_chars(s: &Vec<char>, c: char) -> (r: Vec<char>)
    ensures
        r@ == trim_end_char(s@, c),
{
    let mut j: usize = s.len();
    assert(s@.take(j as int) =~= s@);
    while j > 0 && s[j - 1] == c
        invariant
            0 <= j <= s.len(),
            trim_end_char(s@, c) == trim_end_char(s@.take(j as int), c),
        decreases j,
    {
        assert(s@.take(j as int).drop_last() =~= s@.take(j - 1));
        j -= 1;
    }
    let mut r: Vec<char> = Vec::new();
    let mut k: usize = 0;
    while k < j
        invariant
            0 <= k <= j <= s.len(),
            r@ == s@.take(k as int),
        decreases j - k,
    {
        r.push(s[k]);
        k += 1;
        assert(r@ =~= s@.take(k as int));
    }
    r
}

/// The device path opened to eject a volume: `\\.\` followed by the mount
/// point without its trailing backslashes.
pub fn volume_device_path(mount_point: &str) -> (r: String)
    ensures
        r@ == seq!['\\', '\\', '.', '\\'] + trim_end_char(mount_point@, '\\'),
{
    let m = chars_of(mount_point);
    let t = trim_end_chars(&m, '\\');
    let mut v: Vec<char> = Vec::new();
    v.push('\\');
    v.push('\\');
    v.push('.');
    v.push('\\');
    push_all(&mut v, &t);
    string_of(v.as_slice())
}

/// The part of `s` after its last `c` (all of `s` when it has none), as
/// `s.rsplit(c).next()` gives it.
pub open spec fn after_last(s: Seq<char>, c: char) -> Seq<char>
    decreases s.len(),
{
    if s.len() == 0 {
        s
    } else if s.last() == c {
        Seq::empty()
    } else {
        after_last(s.drop_last(), c).push(s.last())
    }
}

/// The volume name passed to `diskutil eject`: the last path component of
/// the mount point, trailing slashes ignored.
pub fn macos_volume_name(mount_point: &str) -> (r: String)
    ensures
        r@ == after_last(trim_end_char(mount_point@, '/'), '/'),
{
    let m = chars_of(mount_point);
    let t = trim_end_chars(&m, '/');
    let mut i: usize = t.len();
    assert(t@.take(i as int) =~= t@);
    assert(t@.skip(i as int) =~= Seq::<char>::empty());
    while i > 0 && t[i - 1] != '/'
        invariant
            0 <= i <= t.len(),
            after_last(t@, '/') == after_last(t@.take(i as int), '/') + t@.skip(i as int),
        decreases i,
    {
        assert(t@.take(i as int).drop_last() =~= t@.take(i - 1));
        assert(t@.skip(i - 1) =~= seq![t@[i - 1]] + t@.skip(i as int));
        assert(after_last(t@.take(i as int), '/') == after_last(t@.take(i - 1), '/').push(t@[i - 1]));
        assert(after_last(t@.take(i - 1), '/').push(t@[i - 1]) + t@.skip(i as int) =~= after_last(t@.take(i - 1), '/') + t@.skip(i - 1));
        i -= 1;
    }
    let mut r: Vec<char> = Vec::new();
    let mut k: usize = i;
    while k < t.len()
        invariant
            i <= k <= t.len(),
            r@ == t@.subrange(i as int, k as int),
        decreases t.len() - k,
    {
        r.push(t[k]);
        k += 1;
        assert(r@ =~= t@.subrange(i as int, k as int));
    }
    assert(after_last(t@.take(i as int), '/') =~= Seq::<char>::empty());
    assert(t@.skip(i as int) =~= t@.subrange(i as int, t.len() as int));
    string_of(r.as_slice())
}

/// The steps of ejecting a volume, in order.
#[derive(Clone, Copy, Debug, PartialEq, Eq, Structural)]
pub enum EjectStep {
    /// Lock the volume.
    Lock,
    /// Dismount its file system.
    Dismount,
    /// Allow the medium to be removed.
    AllowRemoval,
    /// Eject the medium.
    Eject,
}

/// The device control code of a step.
pub open spec fn step_code(s: EjectStep) -> u32 {
    match s {
        EjectStep::Lock => 0x0009_0018,
        EjectStep::Dismount => 0x0009_0020,
        EjectStep::AllowRemoval => 0x002D_4804,
        EjectStep::Eject => 0x002D_4808,
    }
}

/// The device control code sent for a step.
pub fn ioctl_code(s: EjectStep) -> (c: u32)
    ensures
        c == step_code(s),
{
    match s {
        EjectStep::Lock => 0x0009_0018,
        EjectStep::Dismount => 0x0009_0020,
        EjectStep::AllowRemoval => 0x002D_4804,
        EjectStep::Eject => 0x002D_4808,
    }
}

/// What to do after a step of the eject sequence.
#[derive(Debug)]
pub enum EjectNext {
    /// Perform this step next.
    Step(EjectStep),
    /// Stop and report this error.
    Fail(String),
    /// The volume was ejected.
    Done,
}

/// The eject sequence: lock, dismount, allow removal, eject. A failed lock
/// or dismount stops the sequence with its error; whether allowing removal
/// succeeded is ignored; the outcome of the eject step decides the result.
pub fn eject_next(step: EjectStep, succeeded: bool) -> (r: EjectNext)
    ensures
        step == EjectStep::Lock ==> if succeeded {
            r matches EjectNext::Step(EjectStep::Dismount)
        } else {
            r matches EjectNext::Fail(m) && m@ == "锁卷失败（设备被占用?）"@
        },
        step == EjectStep::Dismount ==> if succeeded {
            r matches EjectNext::Step(EjectStep::AllowRemoval)
        } else {
            r matches EjectNext::Fail(m) && m@ == "卸载卷失败"@
        },
        step == EjectStep::AllowRemoval ==> r matches EjectNext::Step(EjectStep::Eject),
        step == EjectStep::Eject ==> if succeeded {
            r is Done
        } else {
            r matches EjectNext::Fail(m) && m@ == "弹出失败（设备可能不支持热插拔）"@
        },
{
    match step {
        EjectStep::Lock => if succeeded {
            EjectNext::Step(EjectStep::Dismount)
        } else {
            EjectNext::Fail(text("锁卷失败（设备被占用?）"))
        },
        EjectStep::Dismount => if succeeded {
            EjectNext::Step(EjectStep::AllowRemoval)
        } else {
            EjectNext::Fail(text("卸载卷失败"))
        },
        EjectStep::AllowRemoval => EjectNext::Step(EjectStep::Eject),
        EjectStep::Eject => if succeeded {
            EjectNext::Done
        } else {
            EjectNext::Fail(text("弹出失败（设备可能不支持热插拔）"))
        },
    }
}

} // verus!
