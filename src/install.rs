//! The decisions of an install run: archive addresses, staging locations,
//! checksum verification and progress bookkeeping.
use vstd::prelude::*;

use crate::manifest::{all_components, Component, ComponentList};
use crate::ids::{char_string, contains_id, id_set};

verus! {

/// Declared hash that turns verification off.
pub const HASH_DISABLED: &'static str = "00000000";

/// Least time between two progress reports, in milliseconds.
pub const PROGRESS_INTERVAL_MS: u64 = 200;

// ---------------------------------------------------------------------------
// CRC-32, from crc32fast
// ---------------------------------------------------------------------------

#[verifier::external_type_specification]
#[verifier::external_body]
pub struct ExHasher(crc32fast::Hasher);

/// The bytes that a hasher has been fed.
pub uninterp spec fn hashed_bytes(h: crc32fast::Hasher) -> Seq<u8>;

/// The CRC-32 of a byte sequence.
pub uninterp spec fn crc32_of(data: Seq<u8>) -> u32;

/// Relies on `crc32fast::Hasher::new`: a hasher that has been fed nothing.
pub assume_specification[ crc32fast::Hasher::new ]() -> (r: crc32fast::Hasher)
    ensures
        hashed_bytes(r) == Seq::<u8>::empty(),
;

/// Relies on `crc32fast::Hasher::update`: feeds `buf` after what came
/// before; it counts the bytes in a `u64`, which must not overflow.
pub assume_specification[ crc32fast::Hasher::update ](h: &mut crc32fast::Hasher, buf: &[u8])
    requires
        hashed_bytes(*old(h)).len() + buf@.len() <= u64::MAX,
    ensures
        hashed_bytes(*final(h)) == hashed_bytes(*old(h)) + buf@,
;

/// Relies on `crc32fast::Hasher::finalize`: the CRC-32 of all bytes fed.
pub assume_specification[ crc32fast::Hasher::finalize ](h: crc32fast::Hasher) -> (r: u32)
    ensures
        r == crc32_of(hashed_bytes(h)),
;

/// A running checksum over the bytes of a download.
pub struct ArchiveDigest {
    hasher: crc32fast::Hasher,
}

impl ArchiveDigest {
    /// The bytes fed so far.
    pub closed spec fn bytes(&self) -> Seq<u8> {
        hashed_bytes(self.hasher)
    }

    pub fn new() -> (r: ArchiveDigest)
        ensures
            r.bytes() == Seq::<u8>::empty(),
    {
        ArchiveDigest { hasher: crc32fast::Hasher::new() }
    }

    /// Feeds the next chunk.
    pub fn update(&mut self, chunk: &[u8])
        requires
            old(self).bytes().len() + chunk@.len() <= u64::MAX,
        ensures
            final(self).bytes() == old(self).bytes() + chunk@,
    {
        self.hasher.update(chunk);
    }

    /// The CRC-32 of every byte fed.
    pub fn finalize(self) -> (r: u32)
        ensures
            r == crc32_of(self.bytes()),
    {
        self.hasher.finalize()
    }
}

// ---------------------------------------------------------------------------
// Hexadecimal and the hash check
// ---------------------------------------------------------------------------

/// The hexadecimal digits, upper case.
pub const HEX_DIGITS: &'static str = "0123456789ABCDEF";

/// The upper case ASCII letters.
pub const UPPER_LETTERS: &'static str = "ABCDEFGHIJKLMNOPQRSTUVWXYZ";

/// Upper case hexadecimal digit of `d`.
pub open spec fn hex_digit(d: u32) -> char {
    HEX_DIGITS@[d as int]
}

/// `v` as eight upper case hexadecimal digits, most significant first.
pub open spec fn hex8(v: u32) -> Seq<char> {
    Seq::new(8, |i: int| hex_digit(((v as int / pow16(7 - i)) % 16) as u32))
}

pub open spec fn pow16(n: int) -> int
    decreases n,
{
    if n <= 0 {
        1
    } else {
        16 * pow16(n - 1)
    }
}

/// ASCII letters in upper case; every other character unchanged.
pub open spec fn upper(c: char) -> char {
    if 'a' <= c && c <= 'z' {
        UPPER_LETTERS@[(c as u32 - 'a' as u32) as int]
    } else {
        c
    }
}

pub open spec fn upper_seq(s: Seq<char>) -> Seq<char> {
    Seq::new(s.len(), |i: int| upper(s[i]))
}

/// The declared hash names the checksum `v`, in either case.
pub open spec fn hash_matches(v: u32, declared: Seq<char>) -> bool {
    upper_seq(declared) == hex8(v)
}

/// The message of a failed hash check.
pub open spec fn mismatch_message(v: u32, declared: Seq<char>, url: Seq<char>) -> Seq<char> {
    "Download failed, hash mismatch: Got \""@ + hex8(v) + "\" expected \""@ + upper_seq(declared)
        + "\" - URL: \""@ + url + "\""@
}

fn hex_digit_char(d: u32) -> (r: char)
    requires
        d < 16,
    ensures
        r == hex_digit(d),
{
    proof {
        reveal_strlit("0123456789ABCDEF");
    }
    HEX_DIGITS.get_char(d as usize)
}

/// `v` as eight upper case hexadecimal digits.
pub fn hex_upper(v: u32) -> (r: String)
    ensures
        r@ == hex8(v),
{
    let mut r = String::new();
    let mut i: usize = 0;
    while i < 8
        invariant
            i <= 8,
            r@ == hex8(v).subrange(0, i as int),
        decreases 8 - i,
    {
        let shift: u32 = (4 * (7 - i)) as u32;
        let d: u32 = (v >> shift) & 0xf;
        proof {
            lemma_nibble(v, i as int);
        }
        let c = hex_digit_char(d);
        let s = char_string(c);
        r.append(s.as_str());
        assert(hex8(v).subrange(0, i + 1) =~= hex8(v).subrange(0, i as int).push(c));
        i = i + 1;
    }
    assert(hex8(v).subrange(0, 8) =~= hex8(v));
    r
}

proof fn lemma_nibble(v: u32, i: int)
    requires
        0 <= i < 8,
    ensures
        (v >> ((4 * (7 - i)) as u32)) & 0xf == ((v as int / pow16(7 - i)) % 16) as u32,
        (v >> ((4 * (7 - i)) as u32)) & 0xf < 16,
{
    assert(pow16(0) == 1);
    assert(pow16(1) == 16);
    assert(pow16(2) == 256);
    assert(pow16(3) == 4096);
    assert(pow16(4) == 65536);
    assert(pow16(5) == 1048576);
    assert(pow16(6) == 16777216);
    assert(pow16(7) == 268435456);
    let s: u32 = (4 * (7 - i)) as u32;
    assert((v >> s) & 0xf < 16) by (bit_vector);
    if i == 0 {
        assert((v >> 28u32) & 0xf == (v / 268435456) % 16) by (bit_vector);
    } else if i == 1 {
        assert((v >> 24u32) & 0xf == (v / 16777216) % 16) by (bit_vector);
    } else if i == 2 {
        assert((v >> 20u32) & 0xf == (v / 1048576) % 16) by (bit_vector);
    } else if i == 3 {
        assert((v >> 16u32) & 0xf == (v / 65536) % 16) by (bit_vector);
    } else if i == 4 {
        assert((v >> 12u32) & 0xf == (v / 4096) % 16) by (bit_vector);
    } else if i == 5 {
        assert((v >> 8u32) & 0xf == (v / 256) % 16) by (bit_vector);
    } else if i == 6 {
        assert((v >> 4u32) & 0xf == (v / 16) % 16) by (bit_vector);
    } else {
        assert((v >> 0u32) & 0xf == v % 16) by (bit_vector);
    }
}

/// `s` with its ASCII letters in upper case.
pub fn to_upper_ascii(s: &str) -> (r: String)
    ensures
        r@ == upper_seq(s@),
{
    let n = s.unicode_len();
    let mut r = String::new();
    let mut i: usize = 0;
    while i < n
        invariant
            n == s@.len(),
            i <= n,
            r@ == upper_seq(s@).subrange(0, i as int),
        decreases n - i,
    {
        let c = s.get_char(i);
        let u = if 'a' <= c && c <= 'z' {
            proof {
                reveal_strlit("ABCDEFGHIJKLMNOPQRSTUVWXYZ");
            }
            UPPER_LETTERS.get_char((c as u32 - 'a' as u32) as usize)
        } else {
            c
        };
        let t = char_string(u);
        r.append(t.as_str());
        assert(upper_seq(s@).subrange(0, i + 1) =~= upper_seq(s@).subrange(0, i as int).push(u));
        i = i + 1;
    }
    assert(upper_seq(s@).subrange(0, n as int) =~= upper_seq(s@));
    r
}

fn str_eq(a: &str, b: &str) -> (r: bool)
    ensures
        r == (a@ == b@),
{
    let x = a.to_owned();
    let y = b.to_owned();
    x == y
}

/// Checks a downloaded archive's checksum against the declared hash; the
/// sentinel `00000000` accepts any checksum.
pub fn check_hash(computed: u32, declared: &str, url: &str) -> (r: Result<(), String>)
    ensures
        r is Ok <==> (declared@ == HASH_DISABLED@ || hash_matches(computed, declared@)),
        r matches Err(m) ==> m@ == mismatch_message(computed, declared@, url@),
{
    if str_eq(declared, HASH_DISABLED) {
        return Ok(());
    }
    let got = hex_upper(computed);
    let expected = to_upper_ascii(declared);
    if got == expected {
        Ok(())
    } else {
        let mut m = String::new();
        m.append("Download failed, hash mismatch: Got \"");
        m.append(got.as_str());
        m.append("\" expected \"");
        m.append(expected.as_str());
        m.append("\" - URL: \"");
        m.append(url);
        m.append("\"");
        proof {
            reveal_strlit("Download failed, hash mismatch: Got \"");
            reveal_strlit("\" expected \"");
            reveal_strlit("\" - URL: \"");
            reveal_strlit("\"");
        }
        Err(m)
    }
}

// ---------------------------------------------------------------------------
// Addresses and locations
// ---------------------------------------------------------------------------

/// Where a component's archive is downloaded from: the base address, the
/// component's raw identifier, then `.zip`.
pub fn component_url(base_url: &str, comp: &Component) -> (r: String)
    ensures
        r@ == base_url@ + comp.raw_id@ + ".zip"@,
{
    let mut r = base_url.to_owned();
    r.append(comp.raw_id.as_str());
    r.append(".zip");
    proof {
        reveal_strlit(".zip");
    }
    r
}

/// The scratch directory under an installation root.
pub fn staging_root(base_dir: &str) -> (r: String)
    ensures
        r@ == base_dir@ + "/Temp/"@,
{
    let mut r = base_dir.to_owned();
    r.append("/Temp/");
    proof {
        reveal_strlit("/Temp/");
    }
    r
}

/// Where a component is extracted before it is copied into place: the
/// scratch directory, followed by the component's subpath if it has one.
pub fn staging_dir(base_dir: &str, comp: &Component) -> (r: String)
    ensures
        r@ == base_dir@ + "/Temp/"@ + match comp.path {
            Some(p) => p@,
            None => Seq::<char>::empty(),
        },
{
    let mut r = staging_root(base_dir);
    match &comp.path {
        Some(p) => r.append(p.as_str()),
        None => {
            assert(r@ =~= r@ + Seq::<char>::empty());
        },
    }
    r
}

/// Whether enough time has passed since the last progress report.
pub fn progress_due(elapsed_ms: u64) -> (r: bool)
    ensures
        r == (elapsed_ms >= PROGRESS_INTERVAL_MS),
{
    elapsed_ms >= PROGRESS_INTERVAL_MS
}

// ---------------------------------------------------------------------------
// The batch and its progress
// ---------------------------------------------------------------------------

fn copy_text(s: &Option<String>) -> (r: Option<String>)
    ensures
        r == *s,
{
    match s {
        Some(t) => Some(t.clone()),
        None => None,
    }
}

/// A copy of a component, field for field.
pub fn copy_component(c: &Component) -> (r: Component)
    ensures
        r == *c,
{
    Component {
        id: c.id.clone(),
        raw_id: c.raw_id.clone(),
        name: c.name.clone(),
        description: c.description.clone(),
        date_modified: c.date_modified.clone(),
        download_size: c.download_size,
        install_size: c.install_size,
        path: copy_text(&c.path),
        hash: c.hash.clone(),
        depends: copy_text(&c.depends),
        required: c.required,
        installed: c.installed,
    }
}

/// Whether the selection holds a component.
pub open spec fn is_selected(list: ComponentList, c: Component) -> bool {
    id_set(list.selected@).contains(c.id@)
}

/// The selected components, in manifest order.
pub open spec fn install_batch(list: ComponentList) -> Seq<Component> {
    all_components(list).filter(|c: Component| is_selected(list, c))
}

/// Copies of the selected components, in manifest order: what an install
/// run works through.
pub fn selected_components(list: &ComponentList) -> (r: Vec<Component>)
    ensures
        r@ == install_batch(*list),
{
    let comps = crate::manifest::collect_components(&list.categories);
    let ghost all = all_components(*list);
    let ghost pred = |c: Component| is_selected(*list, c);
    let mut out: Vec<Component> = Vec::new();
    let mut i: usize = 0;
    while i < comps.len()
        invariant
            crate::manifest::deref_all(comps@) == all,
            all == all_components(*list),
            pred == (|c: Component| is_selected(*list, c)),
            i <= all.len(),
            out@ == all.subrange(0, i as int).filter(pred),
        decreases all.len() - i,
    {
        let ghost s1 = all.subrange(0, i + 1);
        proof {
            assert(s1.drop_last() =~= all.subrange(0, i as int));
            assert(s1.last() == all[i as int]);
            reveal(Seq::filter);
        }
        let c: &Component = comps[i];
        assert(*c == all[i as int]);
        if contains_id(&list.selected, &c.id) {
            out.push(copy_component(c));
        }
        i = i + 1;
    }
    assert(all.subrange(0, i as int) =~= all);
    out
}

/// The sum of the download sizes of `comps`.
pub open spec fn total_download(comps: Seq<Component>) -> int
    decreases comps.len(),
{
    if comps.len() == 0 {
        0
    } else {
        total_download(comps.drop_last()) + comps.last().download_size
    }
}

/// The sum of the download sizes, or `None` where it does not fit a `u64`.
pub fn batch_size(comps: &Vec<Component>) -> (r: Option<u64>)
    ensures
        match r {
            Some(t) => t == total_download(comps@),
            None => total_download(comps@) > u64::MAX,
        },
{
    let mut total: u64 = 0;
    let mut i: usize = 0;
    while i < comps.len()
        invariant
            i <= comps@.len(),
            total == total_download(comps@.subrange(0, i as int)),
        decreases comps@.len() - i,
    {
        proof {
            assert(comps@.subrange(0, i + 1).drop_last() =~= comps@.subrange(0, i as int));
        }
        match total.checked_add(comps[i].download_size) {
            Some(t) => {
                total = t;
            },
            None => {
                proof {
                    lemma_total_grows(comps@, i + 1);
                }
                return None;
            },
        }
        i = i + 1;
    }
    assert(comps@.subrange(0, i as int) =~= comps@);
    Some(total)
}

proof fn lemma_total_grows(comps: Seq<Component>, n: int)
    requires
        0 <= n <= comps.len(),
    ensures
        total_download(comps.subrange(0, n)) <= total_download(comps),
    decreases comps.len(),
{
    if n < comps.len() {
        assert(comps.drop_last().subrange(0, n) =~= comps.subrange(0, n));
        lemma_total_grows(comps.drop_last(), n);
    } else {
        assert(comps.subrange(0, n) =~= comps);
    }
}

/// Progress of an install run.
pub struct DownloadState {
    pub total_size: u64,
    pub total_downloaded: u64,
    pub total_components: usize,
    pub component_number: i32,
    pub current: Option<Component>,
    pub stage: String,
}

impl DownloadState {
    /// No run: everything zero, no component, no stage.
    pub fn new() -> (r: DownloadState)
        ensures
            r.total_size == 0,
            r.total_downloaded == 0,
            r.total_components == 0,
            r.component_number == 0,
            r.current is None,
            r.stage@ == Seq::<char>::empty(),
    {
        DownloadState {
            total_size: 0,
            total_downloaded: 0,
            total_components: 0,
            component_number: 0,
            current: None,
            stage: String::new(),
        }
    }

    /// The state at the start of a run over `comps`, whose sizes add up
    /// to `total_size`.
    pub fn for_batch(comps: &Vec<Component>, total_size: u64) -> (r: DownloadState)
        requires
            total_size == total_download(comps@),
        ensures
            r.total_size == total_size,
            r.total_downloaded == 0,
            r.total_components == comps@.len(),
            r.component_number == 0,
            r.current is None,
            r.stage@ == Seq::<char>::empty(),
    {
        let mut s = DownloadState::new();
        s.total_size = total_size;
        s.total_components = comps.len();
        s
    }

    /// Moves on to the next component, which is downloaded first.
    pub fn begin_component(&mut self, comp: &Component)
        requires
            old(self).component_number < i32::MAX,
        ensures
            final(self).component_number == old(self).component_number + 1,
            final(self).current == Some(*comp),
            final(self).stage@ == "Downloading"@,
            final(self).total_size == old(self).total_size,
            final(self).total_downloaded == old(self).total_downloaded,
            final(self).total_components == old(self).total_components,
    {
        self.component_number = self.component_number + 1;
        self.current = Some(copy_component(comp));
        self.stage = "Downloading".to_owned();
    }

    /// Counts a chunk of downloaded bytes.
    pub fn record_chunk(&mut self, len: u64)
        requires
            old(self).total_downloaded + len <= u64::MAX,
        ensures
            final(self).total_downloaded == old(self).total_downloaded + len,
            final(self).total_size == old(self).total_size,
            final(self).total_components == old(self).total_components,
            final(self).component_number == old(self).component_number,
            final(self).current == old(self).current,
            final(self).stage == old(self).stage,
    {
        self.total_downloaded = self.total_downloaded + len;
    }

    /// The current component's archive is being extracted.
    pub fn begin_extracting(&mut self)
        ensures
            final(self).stage@ == "Extracting"@,
            final(self).total_size == old(self).total_size,
            final(self).total_downloaded == old(self).total_downloaded,
            final(self).total_components == old(self).total_components,
            final(self).component_number == old(self).component_number,
            final(self).current == old(self).current,
    {
        self.stage = "Extracting".to_owned();
    }
}

// ---------------------------------------------------------------------------
// The order of work in a batch
// ---------------------------------------------------------------------------

/// What an install run does next. Components are handled one at a time, in
/// order: download and check, extract into the scratch directory, then
/// promote (copy) into the installation root.
#[derive(Clone, Copy, Debug, PartialEq, Eq, Structural)]
pub enum BatchStep {
    Download { index: usize },
    Extract { index: usize },
    Promote { index: usize },
    Finished,
    Failed { index: usize },
}

/// What came of the last step.
#[derive(Clone, Copy, Debug, PartialEq, Eq, Structural)]
pub enum BatchEvent {
    /// The archive arrived; whether its checksum passed.
    Downloaded { hash_ok: bool },
    Extracted,
    Promoted,
    /// The step failed.
    Error,
}

pub open spec fn first_step(total: usize) -> BatchStep {
    if total == 0 {
        BatchStep::Finished
    } else {
        BatchStep::Download { index: 0 }
    }
}

pub open spec fn next_step(step: BatchStep, event: BatchEvent, total: usize) -> BatchStep {
    match (step, event) {
        (BatchStep::Download { index }, BatchEvent::Downloaded { hash_ok }) => if hash_ok {
            BatchStep::Extract { index }
        } else {
            BatchStep::Failed { index }
        },
        (BatchStep::Extract { index }, BatchEvent::Extracted) => BatchStep::Promote { index },
        (BatchStep::Promote { index }, BatchEvent::Promoted) => if index + 1 < total {
            BatchStep::Download { index: (index + 1) as usize }
        } else {
            BatchStep::Finished
        },
        (BatchStep::Download { index }, _) => BatchStep::Failed { index },
        (BatchStep::Extract { index }, _) => BatchStep::Failed { index },
        (BatchStep::Promote { index }, _) => BatchStep::Failed { index },
        (s, _) => s,
    }
}

/// The first step of a run over `total` components.
pub fn batch_start(total: usize) -> (r: BatchStep)
    ensures
        r == first_step(total),
{
    if total == 0 {
        BatchStep::Finished
    } else {
        BatchStep::Download { index: 0 }
    }
}

/// The step after `step`, given what came of it. A failed check or any error
/// ends the run at the component at hand; a finished or failed run stays so.
pub fn batch_next(step: BatchStep, event: BatchEvent, total: usize) -> (r: BatchStep)
    requires
        match step {
            BatchStep::Promote { index } => index < total,
            _ => true,
        },
    ensures
        r == next_step(step, event, total),
{
    match (step, event) {
        (BatchStep::Download { index }, BatchEvent::Downloaded { hash_ok }) => {
            if hash_ok {
                BatchStep::Extract { index }
            } else {
                BatchStep::Failed { index }
            }
        },
        (BatchStep::Extract { index }, BatchEvent::Extracted) => BatchStep::Promote { index },
        (BatchStep::Promote { index }, BatchEvent::Promoted) => {
            if index + 1 < total {
                BatchStep::Download { index: index + 1 }
            } else {
                BatchStep::Finished
            }
        },
        (BatchStep::Download { index }, _) => BatchStep::Failed { index },
        (BatchStep::Extract { index }, _) => BatchStep::Failed { index },
        (BatchStep::Promote { index }, _) => BatchStep::Failed { index },
        (s, _) => s,
    }
}

/// The steps that a run goes through for a sequence of events.
pub open spec fn run_steps(start: BatchStep, events: Seq<BatchEvent>, total: usize) -> BatchStep
    decreases events.len(),
{
    if events.len() == 0 {
        start
    } else {
        next_step(run_steps(start, events.drop_last(), total), events.last(), total)
    }
}

/// A checksum that fails while component `i` downloads ends the run at `i`:
/// whatever comes after, the run stays failed at `i`, and never reaches the
/// promotion of `i` or of any later component.
pub proof fn lemma_hash_failure_stops_batch(i: usize, total: usize, later: Seq<BatchEvent>)
    ensures
        run_steps(
            next_step(BatchStep::Download { index: i }, BatchEvent::Downloaded { hash_ok: false }, total),
            later,
            total,
        ) == (BatchStep::Failed { index: i }),
    decreases later.len(),
{
    if later.len() > 0 {
        lemma_hash_failure_stops_batch(i, total, later.drop_last());
    }
}

/// Promotion of a component comes only right after its extraction, which
/// comes only right after a download whose checksum passed.
pub proof fn lemma_promote_needs_passed_check(step: BatchStep, event: BatchEvent, total: usize, i: usize)
    requires
        next_step(step, event, total) == (BatchStep::Promote { index: i }),
    ensures
        step == (BatchStep::Extract { index: i }),
        event == BatchEvent::Extracted,
{
}

pub proof fn lemma_extract_needs_passed_check(step: BatchStep, event: BatchEvent, total: usize, i: usize)
    requires
        next_step(step, event, total) == (BatchStep::Extract { index: i }),
    ensures
        step == (BatchStep::Download { index: i }),
        event == (BatchEvent::Downloaded { hash_ok: true }),
{
}

} // verus!
