//! Visual hint decoder: recovers a short ASCII string that an agent caused to
//! be rendered as a color-coded strip of pixels inside a captured image.
//!
//! Each sampled pixel yields a 7-bit value from fixed bits of its three color
//! channels. A valid strip is a run of `0x00` (start marker), a run of `0x7F`
//! (separator), runs of data values, a trailing `0x7F` run, then a `0x00` run
//! (end marker). Each accumulated run of `n` equal pixels is normalized to
//! `round(n * 2 / marker_width)` output characters (minimum 1), where
//! `marker_width` is the pixel count of the leading `0x00` run; non-printable
//! values are dropped silently.

use vstd::prelude::*;

use crate::strutil::ascii_vec_to_string;
use crate::types::Capture;

verus! {

/// States of the strip scanner.
#[derive(Debug, Clone, Copy, PartialEq, Eq, Structural)]
pub enum ScanState {
    /// Nothing recognized yet.
    Start,
    /// Accumulating `0x00` marker pixels.
    M0,
    /// Accumulating `0x7F` separator pixels.
    M1,
    /// Accumulating data pixels.
    Decode,
    /// Found the trailing `0x7F` separator.
    End1,
    /// Found the end marker; the strip is complete.
    Done,
}

/// One run of consecutive pixels that decoded to the same value.
#[derive(Debug, Clone, Copy)]
pub struct DecodedChar {
    pub c: u8,
    pub n: u32,
}

/// The 7-bit value encoded in one pixel's blue, green and red channels:
/// `G[6:4] << 4 | R[6:5] << 2 | B[6:5]`.
pub open spec fn nibble_spec(b: u8, g: u8, r: u8) -> u8 {
    (((g >> 4) & 0x07) << 4) | (((r >> 5) & 0x03) << 2) | ((b >> 5) & 0x03)
}

/// A pixel value never has its top bit set.
pub proof fn lemma_nibble_bound(b: u8, g: u8, r: u8)
    ensures
        nibble_spec(b, g, r) < 128,
{
    assert((((g >> 4) & 0x07) << 4) | (((r >> 5) & 0x03) << 2) | ((b >> 5) & 0x03) < 128)
        by (bit_vector);
}

/// Byte offset of pixel `(x, y)` in the buffer (4 bytes per pixel, BGRA).
pub open spec fn pixel_index(cap: &Capture, x: int, y: int) -> int {
    y * (cap.bytes_per_row as int) + x * 4
}

/// The value encoded in pixel `(x, y)`.
pub open spec fn nibble_at(cap: &Capture, x: int, y: int) -> u8 {
    let i = pixel_index(cap, x, y);
    nibble_spec(cap.data@[i], cap.data@[i + 1], cap.data@[i + 2])
}

/// How many pixels of a row the scanner samples: every column up to the
/// width, capped at 200, and never past the row stride.
pub open spec fn scan_len(cap: &Capture) -> int {
    let cap_x = if (cap.width as int) < 200 {
        cap.width as int
    } else {
        200
    };
    if cap_x < (cap.bytes_per_row as int) / 4 {
        cap_x
    } else {
        (cap.bytes_per_row as int) / 4
    }
}

/// The sampled values of row `y`, left to right.
pub open spec fn row_nibbles(cap: &Capture, y: int) -> Seq<u8> {
    Seq::new(scan_len(cap) as nat, |x: int| nibble_at(cap, x, y))
}

/// One scanner transition on value `val`. The configuration is the state,
/// the accumulated marker width, and the accumulated runs of data values.
pub open spec fn scan_step(st: ScanState, mw: nat, runs: Seq<(u8, nat)>, val: u8) -> (
    ScanState,
    nat,
    Seq<(u8, nat)>,
) {
    match st {
        ScanState::Start => {
            if val == 0x00 {
                (ScanState::M0, 1 as nat, runs)
            } else {
                (st, mw, runs)
            }
        },
        ScanState::M0 => {
            if val == 0x00 {
                (st, mw + 1, runs)
            } else if val == 0x7f {
                (ScanState::M1, mw, runs)
            } else {
                (ScanState::Start, mw, runs)
            }
        },
        ScanState::M1 => {
            if val == 0x7f {
                (st, mw, runs)
            } else {
                (ScanState::Decode, mw, runs.push((val, 1 as nat)))
            }
        },
        ScanState::Decode => {
            if val == 0x7f {
                (ScanState::End1, mw, runs)
            } else if runs.len() > 0 && runs.last().0 == val {
                (st, mw, runs.update(runs.len() - 1, (val, runs.last().1 + 1)))
            } else if runs.len() > 0 {
                (st, mw, runs.push((val, 1 as nat)))
            } else {
                (st, mw, runs)
            }
        },
        ScanState::End1 => {
            if val == 0x00 {
                (ScanState::Done, mw, runs)
            } else {
                (st, mw, runs)
            }
        },
        ScanState::Done => (st, mw, runs),
    }
}

/// The scanner configuration after consuming `vals` from the initial state.
pub open spec fn scan_seq(vals: Seq<u8>) -> (ScanState, nat, Seq<(u8, nat)>)
    decreases vals.len(),
{
    if vals.len() == 0 {
        (ScanState::Start, 0 as nat, Seq::<(u8, nat)>::empty())
    } else {
        let p = scan_seq(vals.drop_last());
        scan_step(p.0, p.1, p.2, vals.last())
    }
}

/// Once the scanner reaches `Done` it ignores the rest of the row.
pub proof fn lemma_scan_done_absorbs(vals: Seq<u8>, k: int)
    requires
        0 <= k <= vals.len(),
        scan_seq(vals.take(k)).0 == ScanState::Done,
    ensures
        scan_seq(vals) == scan_seq(vals.take(k)),
    decreases vals.len() - k,
{
    if k == vals.len() {
        assert(vals.take(k) =~= vals);
    } else {
        assert(vals.take(k + 1).drop_last() =~= vals.take(k));
        assert(vals.take(k + 1).last() == vals[k]);
        assert(scan_seq(vals.take(k + 1)) == scan_seq(vals.take(k)));
        lemma_scan_done_absorbs(vals, k + 1);
    }
}

/// How many output characters a run of `n` pixels yields:
/// `n * 2 / marker_width`, rounded to the nearest integer (half away from
/// zero), and at least 1.
pub open spec fn char_count(n: nat, mw: nat) -> nat {
    let c = (4 * n + mw) / (2 * mw);
    if c < 1 {
        1 as nat
    } else {
        c
    }
}

/// Values that are emitted: the graphic ASCII range and the space.
pub open spec fn printable(c: u8) -> bool {
    (0x21 <= c && c <= 0x7e) || c == 0x20
}

/// The output of one run: its character repeated `char_count` times, or
/// nothing when the value is not printable.
pub open spec fn run_chars(run: (u8, nat), mw: nat) -> Seq<char> {
    if printable(run.0) {
        Seq::new(char_count(run.1, mw), |k: int| (run.0 as char))
    } else {
        Seq::<char>::empty()
    }
}

/// The normalized output of all runs, in order.
pub open spec fn render_runs(runs: Seq<(u8, nat)>, mw: nat) -> Seq<char>
    decreases runs.len(),
{
    if runs.len() == 0 {
        Seq::<char>::empty()
    } else {
        render_runs(runs.drop_last(), mw) + run_chars(runs.last(), mw)
    }
}

/// What decoding row `y` yields: the normalized output, provided the scanner
/// completed the strip, accumulated data, saw a leading marker, and the
/// output is not empty; none otherwise.
pub open spec fn decode_row_spec(cap: &Capture, y: int) -> Option<Seq<char>> {
    let t = scan_seq(row_nibbles(cap, y));
    if t.0 != ScanState::Done || t.2.len() == 0 || t.1 == 0 {
        None
    } else {
        let out = render_runs(t.2, t.1);
        if out.len() == 0 {
            None
        } else {
            Some(out)
        }
    }
}

/// The first row at which the strip decodes, probing every third row within
/// the top 60 (or fewer) rows, starting from `y`.
pub open spec fn decode_from(cap: &Capture, y: int) -> Option<Seq<char>>
    decreases (if 0 <= y && y < 60 {
        60 - y
    } else {
        0
    }),
{
    let limit = if (cap.height as int) < 60 {
        cap.height as int
    } else {
        60
    };
    if y < 0 || y >= limit {
        None
    } else if decode_row_spec(cap, y) is Some {
        decode_row_spec(cap, y)
    } else {
        decode_from(cap, y + 3)
    }
}

/// What decoding the whole capture yields.
pub open spec fn decode_spec(cap: &Capture) -> Option<Seq<char>> {
    decode_from(cap, 0)
}

/// The runs a vector of accumulated `DecodedChar` records stands for.
pub open spec fn runs_of(v: Seq<DecodedChar>) -> Seq<(u8, nat)> {
    v.map_values(|d: DecodedChar| (d.c, d.n as nat))
}

/// Extract the 7-bit value from pixel `(x, y)` of a capture buffer.
/// The capture is always in BGRA byte order.
pub fn get_nibble(capture: &Capture, x: u32, y: u32) -> (r: u8)
    requires
        capture.wf(),
        y < capture.height,
        x * 4 + 3 < capture.bytes_per_row,
    ensures
        r == nibble_at(capture, x as int, y as int),
        r < 128,
{
    let n = capture.data.len();
    proof {
        let yi = y as int;
        let bpr = capture.bytes_per_row as int;
        let h = capture.height as int;
        assert(yi * bpr + bpr <= h * bpr) by (nonlinear_arith)
            requires
                yi < h,
                bpr >= 0,
        ;
        assert(yi * bpr >= 0) by (nonlinear_arith)
            requires
                yi >= 0,
                bpr >= 0,
        ;
        assert(yi * bpr + (x as int) * 4 + 3 < n as int);
    }
    let idx: usize = (y as usize) * (capture.bytes_per_row as usize) + (x as usize) * 4;
    let b = capture.data[idx];
    let g = capture.data[idx + 1];
    let r = capture.data[idx + 2];

    let r_bits = (r >> 5) & 0x03;
    let g_bits = (g >> 4) & 0x07;
    let b_bits = (b >> 5) & 0x03;

    proof {
        lemma_nibble_bound(b, g, r);
    }
    (g_bits << 4) | (r_bits << 2) | b_bits
}

/// Decode the hint strip from a capture. Scans each candidate row with the
/// marker-run scanner and returns the first row's decoded string, or none.
pub fn decode_hint_v2(capture: &Capture) -> (res: Option<String>)
    requires
        capture.wf(),
    ensures
        res is Some <==> decode_spec(capture) is Some,
        res is Some ==> decode_spec(capture) == Some(res.unwrap()@),
{
    let limit: u32 = if capture.height < 60 {
        capture.height
    } else {
        60
    };
    let mut y: u32 = 0;
    while y < limit
        invariant
            capture.wf(),
            limit == (if (capture.height as int) < 60 {
                capture.height as int
            } else {
                60
            }),
            decode_spec(capture) == decode_from(capture, y as int),
        decreases (if y < limit {
            limit - y
        } else {
            0
        }),
    {
        if let Some(s) = try_decode_row(capture, y) {
            return Some(s);
        }
        y = y + 3;
    }
    None
}

/// Run the strip scanner over row `y` and normalize what it accumulated.
pub fn try_decode_row(capture: &Capture, y: u32) -> (res: Option<String>)
    requires
        capture.wf(),
        y < capture.height,
    ensures
        res is Some <==> decode_row_spec(capture, y as int) is Some,
        res is Some ==> decode_row_spec(capture, y as int) == Some(res.unwrap()@),
{
    let ghost row = row_nibbles(capture, y as int);

    let mut state = ScanState::Start;
    let mut marker_width: u32 = 0;
    let mut decoded: Vec<DecodedChar> = Vec::new();

    let max_x: u32 = if capture.width < 200 {
        capture.width
    } else {
        200
    };

    let mut x: u32 = 0;
    let mut finished = false;
    while x < max_x && !finished
        invariant
            capture.wf(),
            y < capture.height,
            max_x == (if (capture.width as int) < 200 {
                capture.width as int
            } else {
                200
            }),
            row == row_nibbles(capture, y as int),
            x <= max_x,
            marker_width <= x,
            forall|i: int|
                0 <= i < decoded@.len() ==> 1 <= (#[trigger] decoded@[i]).n && decoded@[i].n <= x
                    && decoded@[i].c < 128,
            !finished ==> x as int <= scan_len(capture) && (state, marker_width as nat, runs_of(
                decoded@,
            )) == scan_seq(row.take(x as int)),
            finished ==> scan_seq(row) == (state, marker_width as nat, runs_of(decoded@)),
        decreases max_x - x, (if finished { 0 as int } else { 1 as int }),
    {
        if x * 4 + 3 >= capture.bytes_per_row {
            proof {
                assert((capture.bytes_per_row as int) / 4 <= x as int);
                assert(scan_len(capture) == x as int);
                assert(row.take(x as int) =~= row);
            }
            finished = true;
        } else {
            proof {
                assert((x as int) < (capture.bytes_per_row as int) / 4);
                assert((x as int) < scan_len(capture) || max_x as int <= scan_len(capture));
                assert((x as int) < row.len());
                assert(row.take(x as int + 1).drop_last() =~= row.take(x as int));
                assert(row.take(x as int + 1).last() == row[x as int]);
            }
            let val = get_nibble(capture, x, y);
            proof {
                assert(val == row[x as int]);
            }
            let ghost old_runs = runs_of(decoded@);
            let mut now_done = false;
            match state {
                ScanState::Start => {
                    if val == 0x00 {
                        state = ScanState::M0;
                        marker_width = 1;
                    }
                },
                ScanState::M0 => {
                    if val == 0x00 {
                        marker_width = marker_width + 1;
                    } else if val == 0x7f {
                        state = ScanState::M1;
                    } else {
                        state = ScanState::Start;
                    }
                },
                ScanState::M1 => {
                    if val == 0x7f {
                    } else {
                        state = ScanState::Decode;
                        decoded.push(DecodedChar { c: val, n: 1 });
                    }
                },
                ScanState::Decode => {
                    if val == 0x7f {
                        state = ScanState::End1;
                    } else if decoded.len() > 0 {
                        let last_i = decoded.len() - 1;
                        let last = decoded[last_i];
                        if last.c == val {
                            decoded.set(last_i, DecodedChar { c: val, n: last.n + 1 });
                        } else {
                            decoded.push(DecodedChar { c: val, n: 1 });
                        }
                    }
                },
                ScanState::End1 => {
                    if val == 0x00 {
                        state = ScanState::Done;
                        now_done = true;
                    }
                },
                ScanState::Done => {
                    now_done = true;
                },
            }
            proof {
                assert(runs_of(decoded@) =~= scan_step(
                    scan_seq(row.take(x as int)).0,
                    scan_seq(row.take(x as int)).1,
                    scan_seq(row.take(x as int)).2,
                    val,
                ).2);
            }
            x = x + 1;
            if now_done {
                proof {
                    lemma_scan_done_absorbs(row, x as int);
                }
                finished = true;
            }
        }
    }
    proof {
        if !finished {
            assert(x == max_x);
            assert(max_x as int <= scan_len(capture));
            assert(scan_len(capture) <= max_x as int);
            assert(row.take(x as int) =~= row);
        }
        assert(scan_seq(row) == (state, marker_width as nat, runs_of(decoded@)));
    }

    if !(state == ScanState::Done) || decoded.len() == 0 || marker_width == 0 {
        return None;
    }

    // Normalize: each run spans approximately marker_width pixels.
    let ghost all_runs = runs_of(decoded@);
    let mut out: Vec<u8> = Vec::new();
    let mut i: usize = 0;
    while i < decoded.len()
        invariant
            i <= decoded@.len(),
            marker_width >= 1,
            marker_width <= 200,
            forall|k: int|
                0 <= k < decoded@.len() ==> 1 <= (#[trigger] decoded@[k]).n && decoded@[k].n <= 200
                    && decoded@[k].c < 128,
            all_runs == runs_of(decoded@),
            out@.map_values(|b: u8| b as char) == render_runs(all_runs.take(i as int),
                marker_width as nat,
            ),
            forall|k: int| 0 <= k < out@.len() ==> #[trigger] out@[k] < 128,
        decreases decoded@.len() - i,
    {
        proof {
            assert(all_runs.take(i as int + 1).drop_last() =~= all_runs.take(i as int));
            assert(all_runs.take(i as int + 1).last() == all_runs[i as int]);
        }
        let d = decoded[i];
        let num: u32 = 4 * d.n + marker_width;
        let mut cc: u32 = num / (2 * marker_width);
        if cc < 1 {
            cc = 1;
        }
        proof {
            assert(cc as nat == char_count(d.n as nat, marker_width as nat));
        }
        let ghost out_before = out@;
        if (0x21 <= d.c && d.c <= 0x7e) || d.c == 0x20 {
            let mut k: u32 = 0;
            while k < cc
                invariant
                    k <= cc,
                    d.c < 128,
                    out@ == out_before + Seq::new(k as nat, |j: int| d.c),
                decreases cc - k,
            {
                let ghost ob = out@;
                out.push(d.c);
                proof {
                    assert(out@ =~= out_before + Seq::new(k as nat + 1, |j: int| d.c));
                }
                k = k + 1;
            }
        }
        proof {
            assert(out@.map_values(|b: u8| b as char) =~= render_runs(
                all_runs.take(i as int + 1),
                marker_width as nat,
            ));
        }
        i = i + 1;
    }
    proof {
        assert(all_runs.take(decoded@.len() as int) =~= all_runs);
    }

    if out.len() == 0 {
        None
    } else {
        let s = ascii_vec_to_string(out);
        proof {
            assert(s@ =~= render_runs(all_runs, marker_width as nat));
        }
        Some(s)
    }
}

} // verus!
