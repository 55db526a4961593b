//! The command line's arguments: what each command accepts and what it
//! refuses.

use crate::codec::bytes_eq;
use crate::serve::{all_digits, digits_value, parse_u64, parse_u64_spec};
use crate::text::{lossy_string, lossy_utf8, push_bytes};
use vstd::prelude::*;
use vstd::utf8::encode_utf8;

verus! {

/// The bytes of `-o`.
pub open spec fn flag_o() -> Seq<u8> {
    seq![45u8, 111]
}

/// The bytes of `--out`.
pub open spec fn flag_out() -> Seq<u8> {
    seq![45u8, 45, 111, 117, 116]
}

/// The bytes of `-l`.
pub open spec fn flag_l() -> Seq<u8> {
    seq![45u8, 108]
}

/// The bytes of `--level`.
pub open spec fn flag_level() -> Seq<u8> {
    seq![45u8, 45, 108, 101, 118, 101, 108]
}

/// The bytes of `-q`.
pub open spec fn flag_q() -> Seq<u8> {
    seq![45u8, 113]
}

/// The bytes of `--quiet`.
pub open spec fn flag_quiet() -> Seq<u8> {
    seq![45u8, 45, 113, 117, 105, 101, 116]
}

/// The bytes of `-r`.
pub open spec fn flag_r() -> Seq<u8> {
    seq![45u8, 114]
}

/// The bytes of `--redundancy`.
pub open spec fn flag_redundancy() -> Seq<u8> {
    seq![45u8, 45, 114, 101, 100, 117, 110, 100, 97, 110, 99, 121]
}

/// The bytes of `missing value for -o/--out`.
pub open spec fn missing_out_text() -> Seq<u8> {
    seq![109u8, 105, 115, 115, 105, 110, 103, 32, 118, 97, 108, 117, 101, 32, 102, 111, 114, 32, 45, 111, 47, 45, 45, 111, 117, 116]
}

/// The bytes of `missing value for -l/--level`.
pub open spec fn missing_level_text() -> Seq<u8> {
    seq![109u8, 105, 115, 115, 105, 110, 103, 32, 118, 97, 108, 117, 101, 32, 102, 111, 114, 32, 45, 108, 47, 45, 45, 108, 101, 118, 101, 108]
}

/// The bytes of `missing value for -r/--redundancy`.
pub open spec fn missing_redundancy_text() -> Seq<u8> {
    seq![109u8, 105, 115, 115, 105, 110, 103, 32, 118, 97, 108, 117, 101, 32, 102, 111, 114, 32, 45, 114, 47, 45, 45, 114, 101, 100, 117, 110, 100, 97, 110, 99, 121]
}

/// The bytes of `invalid compression level: `.
pub open spec fn invalid_level_text() -> Seq<u8> {
    seq![105u8, 110, 118, 97, 108, 105, 100, 32, 99, 111, 109, 112, 114, 101, 115, 115, 105, 111, 110, 32, 108, 101, 118, 101, 108, 58, 32]
}

/// The bytes of `invalid redundancy percentage: `.
pub open spec fn invalid_redundancy_text() -> Seq<u8> {
    seq![105u8, 110, 118, 97, 108, 105, 100, 32, 114, 101, 100, 117, 110, 100, 97, 110, 99, 121, 32, 112, 101, 114, 99, 101, 110, 116, 97, 103, 101, 58, 32]
}

/// The bytes of `redundancy must be between 1 and 100`.
pub open spec fn redundancy_range_text() -> Seq<u8> {
    seq![114u8, 101, 100, 117, 110, 100, 97, 110, 99, 121, 32, 109, 117, 115, 116, 32, 98, 101, 32, 98, 101, 116, 119, 101, 101, 110, 32, 49, 32, 97, 110, 100, 32, 49, 48, 48]
}

/// The bytes of `unknown flag: `.
pub open spec fn unknown_flag_text() -> Seq<u8> {
    seq![117u8, 110, 107, 110, 111, 119, 110, 32, 102, 108, 97, 103, 58, 32]
}

/// The bytes of `unexpected argument: `.
pub open spec fn unexpected_argument_text() -> Seq<u8> {
    seq![117u8, 110, 101, 120, 112, 101, 99, 116, 101, 100, 32, 97, 114, 103, 117, 109, 101, 110, 116, 58, 32]
}

/// The bytes of `missing <rootdir> argument`.
pub open spec fn missing_root_text() -> Seq<u8> {
    seq![109u8, 105, 115, 115, 105, 110, 103, 32, 60, 114, 111, 111, 116, 100, 105, 114, 62, 32, 97, 114, 103, 117, 109, 101, 110, 116]
}

/// The bytes of `missing <file.zim> argument`.
pub open spec fn missing_zim_text() -> Seq<u8> {
    seq![109u8, 105, 115, 115, 105, 110, 103, 32, 60, 102, 105, 108, 101, 46, 122, 105, 109, 62, 32, 97, 114, 103, 117, 109, 101, 110, 116]
}

/// The bytes of each argument.
pub open spec fn arg_bytes(args: Seq<String>) -> Seq<Seq<u8>> {
    args.map_values(|a: String| encode_utf8(a@))
}

/// The bytes of an optional string.
pub open spec fn opt_bytes(s: Option<String>) -> Option<Seq<u8>> {
    match s {
        Some(v) => Some(encode_utf8(v@)),
        None => None,
    }
}

/// What `i32::from_str` gives for the text `s`: an optional sign, then one
/// or more ASCII digits whose value fits in 32 bits.
pub open spec fn parse_i32_spec(s: Seq<u8>) -> Option<i32> {
    if s.len() > 0 && s[0] == 45 {
        let d = s.drop_first();
        if d.len() > 0 && all_digits(d) && digits_value(d) <= 2147483648 {
            Some((0 - digits_value(d)) as i32)
        } else {
            None
        }
    } else {
        match parse_u64_spec(s) {
            Some(v) => if v <= 2147483647 {
                Some(v as i32)
            } else {
                None
            },
            None => None,
        }
    }
}

/// Parses a decimal number as `i32::from_str` does.
pub fn parse_i32(s: &[u8]) -> (r: Option<i32>)
    ensures
        r == parse_i32_spec(s@),
{
    if s.len() > 0 && s[0] == 45 {
        let d = vstd::slice::slice_subrange(s, 1, s.len());
        assert(d@ =~= s@.drop_first());
        if d.len() == 0 || d[0] == 43 {
            proof {
                if d@.len() > 0 {
                    assert(!all_digits(d@)) by {
                        assert(d@[0] == 43);
                    }
                }
            }
            return None;
        }
        match parse_u64(d) {
            Some(v) => {
                if v <= 2147483648 {
                    let r = (0i64 - v as i64) as i32;
                    Some(r)
                } else {
                    None
                }
            },
            None => None,
        }
    } else {
        match parse_u64(s) {
            Some(v) => {
                if v <= 2147483647 {
                    Some(v as i32)
                } else {
                    None
                }
            },
            None => None,
        }
    }
}

/// The error text `prefix` followed by the argument `arg`.
fn text_with(prefix: &[u8], arg: &[u8]) -> (s: String)
    ensures
        s@ == lossy_utf8(prefix@ + arg@),
{
    let mut b: Vec<u8> = Vec::new();
    push_bytes(&mut b, prefix);
    push_bytes(&mut b, arg);
    lossy_string(b.as_slice())
}

/// The options of `zim build`: the root directory, the output file, quiet,
/// and the compression level.
pub struct BuildArgs {
    pub root: Option<Seq<u8>>,
    pub out: Option<Seq<u8>>,
    pub quiet: bool,
    pub level: Option<i32>,
}

/// Reads the arguments of `zim build` from position `i` on, `st` holding
/// what was read before; the error's text where one is refused.
pub open spec fn build_args_from(a: Seq<Seq<u8>>, i: int, st: BuildArgs) -> Result<BuildArgs, Seq<u8>>
    decreases a.len() - i,
{
    if i < 0 || i >= a.len() {
        Ok(st)
    } else if a[i] == flag_o() || a[i] == flag_out() {
        if i + 1 >= a.len() {
            Err(missing_out_text())
        } else {
            build_args_from(a, i + 2, BuildArgs { root: st.root, out: Some(a[i + 1]), quiet: st.quiet, level: st.level })
        }
    } else if a[i] == flag_l() || a[i] == flag_level() {
        if i + 1 >= a.len() {
            Err(missing_level_text())
        } else {
            match parse_i32_spec(a[i + 1]) {
                None => Err(invalid_level_text() + a[i + 1]),
                Some(l) => build_args_from(a, i + 2, BuildArgs { root: st.root, out: st.out, quiet: st.quiet, level: Some(l) }),
            }
        }
    } else if a[i] == flag_q() || a[i] == flag_quiet() {
        build_args_from(a, i + 1, BuildArgs { root: st.root, out: st.out, quiet: true, level: st.level })
    } else if a[i].len() > 0 && a[i][0] == 45 {
        Err(unknown_flag_text() + a[i])
    } else if st.root is Some {
        Err(unexpected_argument_text() + a[i])
    } else {
        build_args_from(a, i + 1, BuildArgs { root: Some(a[i]), out: st.out, quiet: st.quiet, level: st.level })
    }
}

/// What the arguments of `zim build` give: the options, or the error's
/// text; a root directory must be named.
pub open spec fn build_args_spec(a: Seq<Seq<u8>>) -> Result<BuildArgs, Seq<u8>> {
    match build_args_from(a, 0, BuildArgs { root: None, out: None, quiet: false, level: None }) {
        Err(e) => Err(e),
        Ok(st) => if st.root is None {
            Err(missing_root_text())
        } else {
            Ok(st)
        },
    }
}

/// Reads the arguments of `zim build`: the root directory, the output file,
/// quiet, and the compression level.
pub fn parse_build_args(args: &[String]) -> (r: Result<(String, Option<String>, bool, Option<i32>), String>)
    ensures
        match r {
            Ok((root, out, quiet, level)) => build_args_spec(arg_bytes(args@)) == Ok::<BuildArgs, Seq<u8>>(
                BuildArgs { root: Some(encode_utf8(root@)), out: opt_bytes(out), quiet, level },
            ),
            Err(e) => build_args_spec(arg_bytes(args@)) matches Err(m) && e@ == lossy_utf8(m),
        },
{
    let ghost a = arg_bytes(args@);
    let mut root: Option<String> = None;
    let mut out: Option<String> = None;
    let mut quiet = false;
    let mut level: Option<i32> = None;
    let mut i: usize = 0;
    while i < args.len()
        invariant
            0 <= i <= args@.len(),
            a == arg_bytes(args@),
            build_args_from(a, 0, BuildArgs { root: None, out: None, quiet: false, level: None })
                == build_args_from(a, i as int, BuildArgs { root: opt_bytes(root), out: opt_bytes(out), quiet, level }),
        decreases args@.len() - i,
    {
        let arg = args[i].as_str().as_bytes();
        assert(arg@ == a[i as int]);
        let fo: [u8; 2] = [45, 111];
        assert(fo@ =~= flag_o());
        let fout: [u8; 5] = [45, 45, 111, 117, 116];
        assert(fout@ =~= flag_out());
        let fq: [u8; 2] = [45, 113];
        assert(fq@ =~= flag_q());
        let fquiet: [u8; 7] = [45, 45, 113, 117, 105, 101, 116];
        assert(fquiet@ =~= flag_quiet());
        let fl: [u8; 2] = [45, 108];
        assert(fl@ =~= flag_l());
        let flevel: [u8; 7] = [45, 45, 108, 101, 118, 101, 108];
        assert(flevel@ =~= flag_level());
        if bytes_eq(arg, fo.as_slice()) || bytes_eq(arg, fout.as_slice()) {
            if i + 1 >= args.len() {
                let msg: [u8; 26] = [109, 105, 115, 115, 105, 110, 103, 32, 118, 97, 108, 117, 101, 32, 102, 111, 114, 32, 45, 111, 47, 45, 45, 111, 117, 116];
                assert(msg@ =~= missing_out_text());
                return Err(lossy_string(msg.as_slice()));
            }
            assert(encode_utf8(args@[i + 1]@) == a[i + 1]);
            out = Some(args[i + 1].clone());
            i = i + 2;
        } else if bytes_eq(arg, fl.as_slice()) || bytes_eq(arg, flevel.as_slice()) {
            if i + 1 >= args.len() {
                let msg: [u8; 28] = [109, 105, 115, 115, 105, 110, 103, 32, 118, 97, 108, 117, 101, 32, 102, 111, 114, 32, 45, 108, 47, 45, 45, 108, 101, 118, 101, 108];
                assert(msg@ =~= missing_level_text());
                return Err(lossy_string(msg.as_slice()));
            }
            let v = args[i + 1].as_str().as_bytes();
            assert(v@ == a[i + 1]);
            match parse_i32(v) {
                Some(l) => {
                    level = Some(l);
                },
                None => {
                    let msg: [u8; 27] = [105, 110, 118, 97, 108, 105, 100, 32, 99, 111, 109, 112, 114, 101, 115, 115, 105, 111, 110, 32, 108, 101, 118, 101, 108, 58, 32];
                    assert(msg@ =~= invalid_level_text());
                    return Err(text_with(msg.as_slice(), v));
                },
            }
            i = i + 2;
        } else if bytes_eq(arg, fq.as_slice()) || bytes_eq(arg, fquiet.as_slice()) {
            quiet = true;
            i = i + 1;
        } else if arg.len() > 0 && arg[0] == 45 {
            let msg: [u8; 14] = [117, 110, 107, 110, 111, 119, 110, 32, 102, 108, 97, 103, 58, 32];
            assert(msg@ =~= unknown_flag_text());
            return Err(text_with(msg.as_slice(), arg));
        } else if root.is_some() {
            let msg: [u8; 21] = [117, 110, 101, 120, 112, 101, 99, 116, 101, 100, 32, 97, 114, 103, 117, 109, 101, 110, 116, 58, 32];
            assert(msg@ =~= unexpected_argument_text());
            return Err(text_with(msg.as_slice(), arg));
        } else {
            root = Some(args[i].clone());
            i = i + 1;
        }
    }
    match root {
        Some(r) => Ok((r, out, quiet, level)),
        None => {
            let msg: [u8; 26] = [109, 105, 115, 115, 105, 110, 103, 32, 60, 114, 111, 111, 116, 100, 105, 114, 62, 32, 97, 114, 103, 117, 109, 101, 110, 116];
            assert(msg@ =~= missing_root_text());
            return Err(lossy_string(msg.as_slice()));
        },
    }
}


/// The options of `zim extract`: the archive, the output directory, and quiet.
pub struct ExtractArgs {
    pub zim: Option<Seq<u8>>,
    pub out: Option<Seq<u8>>,
    pub quiet: bool,
}

/// Reads the arguments of `zim extract` from position `i` on.
pub open spec fn extract_args_from(a: Seq<Seq<u8>>, i: int, st: ExtractArgs) -> Result<ExtractArgs, Seq<u8>>
    decreases a.len() - i,
{
    if i < 0 || i >= a.len() {
        Ok(st)
    } else if a[i] == flag_o() || a[i] == flag_out() {
        if i + 1 >= a.len() {
            Err(missing_out_text())
        } else {
            extract_args_from(a, i + 2, ExtractArgs { zim: st.zim, out: Some(a[i + 1]), quiet: st.quiet })
        }
    } else if a[i] == flag_q() || a[i] == flag_quiet() {
        extract_args_from(a, i + 1, ExtractArgs { zim: st.zim, out: st.out, quiet: true })
    } else if a[i].len() > 0 && a[i][0] == 45 {
        Err(unknown_flag_text() + a[i])
    } else if st.zim is Some {
        Err(unexpected_argument_text() + a[i])
    } else {
        extract_args_from(a, i + 1, ExtractArgs { zim: Some(a[i]), out: st.out, quiet: st.quiet })
    }
}

/// What the arguments of `zim extract` give; an archive must be named.
pub open spec fn extract_args_spec(a: Seq<Seq<u8>>) -> Result<ExtractArgs, Seq<u8>> {
    match extract_args_from(a, 0, ExtractArgs { zim: None, out: None, quiet: false }) {
        Err(e) => Err(e),
        Ok(st) => if st.zim is None {
            Err(missing_zim_text())
        } else {
            Ok(st)
        },
    }
}

/// Reads the arguments of `zim extract`: the archive, the output directory,
/// and quiet.
pub fn parse_extract_args(args: &[String]) -> (r: Result<(String, Option<String>, bool), String>)
    ensures
        match r {
            Ok((zim, out, quiet)) => extract_args_spec(arg_bytes(args@)) == Ok::<ExtractArgs, Seq<u8>>(
                ExtractArgs { zim: Some(encode_utf8(zim@)), out: opt_bytes(out), quiet },
            ),
            Err(e) => extract_args_spec(arg_bytes(args@)) matches Err(m) && e@ == lossy_utf8(m),
        },
{
    let ghost a = arg_bytes(args@);
    let mut zim: Option<String> = None;
    let mut out: Option<String> = None;
    let mut quiet = false;
    let mut i: usize = 0;
    while i < args.len()
        invariant
            0 <= i <= args@.len(),
            a == arg_bytes(args@),
            extract_args_from(a, 0, ExtractArgs { zim: None, out: None, quiet: false })
                == extract_args_from(a, i as int, ExtractArgs { zim: opt_bytes(zim), out: opt_bytes(out), quiet }),
        decreases args@.len() - i,
    {
        let arg = args[i].as_str().as_bytes();
        assert(arg@ == a[i as int]);
        let fo: [u8; 2] = [45, 111];
        assert(fo@ =~= flag_o());
        let fout: [u8; 5] = [45, 45, 111, 117, 116];
        assert(fout@ =~= flag_out());
        let fq: [u8; 2] = [45, 113];
        assert(fq@ =~= flag_q());
        let fquiet: [u8; 7] = [45, 45, 113, 117, 105, 101, 116];
        assert(fquiet@ =~= flag_quiet());
        if bytes_eq(arg, fo.as_slice()) || bytes_eq(arg, fout.as_slice()) {
            if i + 1 >= args.len() {
                let msg: [u8; 26] = [109, 105, 115, 115, 105, 110, 103, 32, 118, 97, 108, 117, 101, 32, 102, 111, 114, 32, 45, 111, 47, 45, 45, 111, 117, 116];
                assert(msg@ =~= missing_out_text());
                return Err(lossy_string(msg.as_slice()));
            }
            assert(encode_utf8(args@[i + 1]@) == a[i + 1]);
            out = Some(args[i + 1].clone());
            i = i + 2;
        } else if bytes_eq(arg, fq.as_slice()) || bytes_eq(arg, fquiet.as_slice()) {
            quiet = true;
            i = i + 1;
        } else if arg.len() > 0 && arg[0] == 45 {
            let msg: [u8; 14] = [117, 110, 107, 110, 111, 119, 110, 32, 102, 108, 97, 103, 58, 32];
            assert(msg@ =~= unknown_flag_text());
            return Err(text_with(msg.as_slice(), arg));
        } else if zim.is_some() {
            let msg: [u8; 21] = [117, 110, 101, 120, 112, 101, 99, 116, 101, 100, 32, 97, 114, 103, 117, 109, 101, 110, 116, 58, 32];
            assert(msg@ =~= unexpected_argument_text());
            return Err(text_with(msg.as_slice(), arg));
        } else {
            zim = Some(args[i].clone());
            i = i + 1;
        }
    }
    match zim {
        Some(z) => Ok((z, out, quiet)),
        None => {
            let msg: [u8; 27] = [109, 105, 115, 115, 105, 110, 103, 32, 60, 102, 105, 108, 101, 46, 122, 105, 109, 62, 32, 97, 114, 103, 117, 109, 101, 110, 116];
            assert(msg@ =~= missing_zim_text());
            return Err(lossy_string(msg.as_slice()));
        },
    }
}

/// The options of `zim add-fec`: the archive and the redundancy percentage.
pub struct FecArgs {
    pub zim: Option<Seq<u8>>,
    pub redundancy: u32,
}

/// What `u32::from_str` gives for the text `s`.
pub open spec fn parse_u32_spec(s: Seq<u8>) -> Option<u32> {
    match parse_u64_spec(s) {
        Some(v) => if v <= u32::MAX {
            Some(v as u32)
        } else {
            None
        },
        None => None,
    }
}

/// Reads the arguments of `zim add-fec` from position `i` on.
pub open spec fn fec_args_from(a: Seq<Seq<u8>>, i: int, st: FecArgs) -> Result<FecArgs, Seq<u8>>
    decreases a.len() - i,
{
    if i < 0 || i >= a.len() {
        Ok(st)
    } else if a[i] == flag_r() || a[i] == flag_redundancy() {
        if i + 1 >= a.len() {
            Err(missing_redundancy_text())
        } else {
            match parse_u32_spec(a[i + 1]) {
                None => Err(invalid_redundancy_text() + a[i + 1]),
                Some(r) => if r == 0 || r > 100 {
                    Err(redundancy_range_text())
                } else {
                    fec_args_from(a, i + 2, FecArgs { zim: st.zim, redundancy: r })
                },
            }
        }
    } else if a[i].len() > 0 && a[i][0] == 45 {
        Err(unknown_flag_text() + a[i])
    } else if st.zim is Some {
        Err(unexpected_argument_text() + a[i])
    } else {
        fec_args_from(a, i + 1, FecArgs { zim: Some(a[i]), redundancy: st.redundancy })
    }
}

/// What the arguments of `zim add-fec` give; the redundancy is 25 unless
/// given, and an archive must be named.
pub open spec fn fec_args_spec(a: Seq<Seq<u8>>) -> Result<FecArgs, Seq<u8>> {
    match fec_args_from(a, 0, FecArgs { zim: None, redundancy: 25 }) {
        Err(e) => Err(e),
        Ok(st) => if st.zim is None {
            Err(missing_zim_text())
        } else {
            Ok(st)
        },
    }
}

/// Reads the arguments of `zim add-fec`: the archive and the redundancy
/// percentage, from 1 to 100.
pub fn parse_add_fec_args(args: &[String]) -> (r: Result<(String, u32), String>)
    ensures
        match r {
            Ok((zim, redundancy)) => fec_args_spec(arg_bytes(args@)) == Ok::<FecArgs, Seq<u8>>(
                FecArgs { zim: Some(encode_utf8(zim@)), redundancy },
            ),
            Err(e) => fec_args_spec(arg_bytes(args@)) matches Err(m) && e@ == lossy_utf8(m),
        },
{
    let ghost a = arg_bytes(args@);
    let mut zim: Option<String> = None;
    let mut redundancy: u32 = 25;
    let mut i: usize = 0;
    while i < args.len()
        invariant
            0 <= i <= args@.len(),
            a == arg_bytes(args@),
            fec_args_from(a, 0, FecArgs { zim: None, redundancy: 25 })
                == fec_args_from(a, i as int, FecArgs { zim: opt_bytes(zim), redundancy }),
        decreases args@.len() - i,
    {
        let arg = args[i].as_str().as_bytes();
        assert(arg@ == a[i as int]);
        let fr: [u8; 2] = [45, 114];
        assert(fr@ =~= flag_r());
        let fred: [u8; 12] = [45, 45, 114, 101, 100, 117, 110, 100, 97, 110, 99, 121];
        assert(fred@ =~= flag_redundancy());
        if bytes_eq(arg, fr.as_slice()) || bytes_eq(arg, fred.as_slice()) {
            if i + 1 >= args.len() {
                let msg: [u8; 33] = [109, 105, 115, 115, 105, 110, 103, 32, 118, 97, 108, 117, 101, 32, 102, 111, 114, 32, 45, 114, 47, 45, 45, 114, 101, 100, 117, 110, 100, 97, 110, 99, 121];
                assert(msg@ =~= missing_redundancy_text());
                return Err(lossy_string(msg.as_slice()));
            }
            let v = args[i + 1].as_str().as_bytes();
            assert(v@ == a[i + 1]);
            let parsed = match parse_u64(v) {
                Some(x) => if x <= 0xffff_ffff {
                    Some(x as u32)
                } else {
                    None
                },
                None => None,
            };
            match parsed {
                Some(r) => {
                    if r == 0 || r > 100 {
                        let msg: [u8; 36] = [114, 101, 100, 117, 110, 100, 97, 110, 99, 121, 32, 109, 117, 115, 116, 32, 98, 101, 32, 98, 101, 116, 119, 101, 101, 110, 32, 49, 32, 97, 110, 100, 32, 49, 48, 48];
                        assert(msg@ =~= redundancy_range_text());
                        return Err(lossy_string(msg.as_slice()));
                    }
                    redundancy = r;
                },
                None => {
                    let msg: [u8; 31] = [105, 110, 118, 97, 108, 105, 100, 32, 114, 101, 100, 117, 110, 100, 97, 110, 99, 121, 32, 112, 101, 114, 99, 101, 110, 116, 97, 103, 101, 58, 32];
                    assert(msg@ =~= invalid_redundancy_text());
                    return Err(text_with(msg.as_slice(), v));
                },
            }
            i = i + 2;
        } else if arg.len() > 0 && arg[0] == 45 {
            let msg: [u8; 14] = [117, 110, 107, 110, 111, 119, 110, 32, 102, 108, 97, 103, 58, 32];
            assert(msg@ =~= unknown_flag_text());
            return Err(text_with(msg.as_slice(), arg));
        } else if zim.is_some() {
            let msg: [u8; 21] = [117, 110, 101, 120, 112, 101, 99, 116, 101, 100, 32, 97, 114, 103, 117, 109, 101, 110, 116, 58, 32];
            assert(msg@ =~= unexpected_argument_text());
            return Err(text_with(msg.as_slice(), arg));
        } else {
            zim = Some(args[i].clone());
            i = i + 1;
        }
    }
    match zim {
        Some(z) => Ok((z, redundancy)),
        None => {
            let msg: [u8; 27] = [109, 105, 115, 115, 105, 110, 103, 32, 60, 102, 105, 108, 101, 46, 122, 105, 109, 62, 32, 97, 114, 103, 117, 109, 101, 110, 116];
            assert(msg@ =~= missing_zim_text());
            return Err(lossy_string(msg.as_slice()));
        },
    }
}

/// What the arguments of `zim repair` give: exactly one archive, no flags.
pub open spec fn repair_args_from(a: Seq<Seq<u8>>, i: int, zim: Option<Seq<u8>>) -> Result<Seq<u8>, Seq<u8>>
    decreases a.len() - i,
{
    if i < 0 || i >= a.len() {
        match zim {
            Some(z) => Ok(z),
            None => Err(missing_zim_text()),
        }
    } else if a[i].len() > 0 && a[i][0] == 45 {
        Err(unknown_flag_text() + a[i])
    } else if zim is Some {
        Err(unexpected_argument_text() + a[i])
    } else {
        repair_args_from(a, i + 1, Some(a[i]))
    }
}

/// Reads the arguments of `zim repair`: the archive.
pub fn parse_repair_args(args: &[String]) -> (r: Result<String, String>)
    ensures
        match r {
            Ok(zim) => repair_args_from(arg_bytes(args@), 0, None) == Ok::<Seq<u8>, Seq<u8>>(encode_utf8(zim@)),
            Err(e) => repair_args_from(arg_bytes(args@), 0, None) matches Err(m) && e@ == lossy_utf8(m),
        },
{
    let ghost a = arg_bytes(args@);
    let mut zim: Option<String> = None;
    let mut i: usize = 0;
    while i < args.len()
        invariant
            0 <= i <= args@.len(),
            a == arg_bytes(args@),
            repair_args_from(a, 0, None) == repair_args_from(a, i as int, opt_bytes(zim)),
        decreases args@.len() - i,
    {
        let arg = args[i].as_str().as_bytes();
        assert(arg@ == a[i as int]);
        if arg.len() > 0 && arg[0] == 45 {
            let msg: [u8; 14] = [117, 110, 107, 110, 111, 119, 110, 32, 102, 108, 97, 103, 58, 32];
            assert(msg@ =~= unknown_flag_text());
            return Err(text_with(msg.as_slice(), arg));
        }
        if zim.is_some() {
            let msg: [u8; 21] = [117, 110, 101, 120, 112, 101, 99, 116, 101, 100, 32, 97, 114, 103, 117, 109, 101, 110, 116, 58, 32];
            assert(msg@ =~= unexpected_argument_text());
            return Err(text_with(msg.as_slice(), arg));
        }
        zim = Some(args[i].clone());
        i = i + 1;
    }
    match zim {
        Some(z) => Ok(z),
        None => {
            let msg: [u8; 27] = [109, 105, 115, 115, 105, 110, 103, 32, 60, 102, 105, 108, 101, 46, 122, 105, 109, 62, 32, 97, 114, 103, 117, 109, 101, 110, 116];
            assert(msg@ =~= missing_zim_text());
            return Err(lossy_string(msg.as_slice()));
        },
    }
}

/// Reading the arguments of `zim extract` from position `i` on looks only
/// at the arguments from there on.
proof fn lemma_extract_from_rest(a: Seq<Seq<u8>>, b: Seq<Seq<u8>>, i: int, st: ExtractArgs)
    requires
        a.len() == b.len(),
        forall|k: int| i <= k < a.len() ==> a[k] == b[k],
    ensures
        extract_args_from(a, i, st) == extract_args_from(b, i, st),
    decreases a.len() - i,
{
    if 0 <= i < a.len() {
        assert(a[i] == b[i]);
        if i + 1 < a.len() {
            assert(a[i + 1] == b[i + 1]);
        }
        lemma_extract_from_rest(a, b, i + 1, ExtractArgs { zim: st.zim, out: st.out, quiet: true });
        lemma_extract_from_rest(a, b, i + 1, ExtractArgs { zim: Some(a[i]), out: st.out, quiet: st.quiet });
        if i + 1 < a.len() {
            lemma_extract_from_rest(a, b, i + 2, ExtractArgs { zim: st.zim, out: Some(a[i + 1]), quiet: st.quiet });
        }
    }
}

/// For `zim extract`, `-o` and `--out` mean the same wherever a flag may
/// stand: writing one for the other changes nothing that is read.
pub proof fn lemma_extract_o_is_out(a: Seq<Seq<u8>>, i: int, st: ExtractArgs)
    requires
        0 <= i < a.len(),
        a[i] == flag_o(),
    ensures
        extract_args_from(a, i, st) == extract_args_from(a.update(i, flag_out()), i, st),
{
    let b = a.update(i, flag_out());
    if i + 1 < a.len() {
        lemma_extract_from_rest(a, b, i + 2, ExtractArgs { zim: st.zim, out: Some(a[i + 1]), quiet: st.quiet });
    }
}

/// `zim extract <file> -o <dir>` and `zim extract <file> --out <dir>` name
/// the archive `<file>` and the output directory `<dir>`, whatever `<dir>`
/// is, and are not quiet; the same holds with the flag first.
pub proof fn lemma_extract_out_is_next_argument(z: Seq<u8>, d: Seq<u8>)
    requires
        z.len() > 0,
        z[0] != 45u8,
    ensures
        extract_args_spec(seq![z, flag_o(), d]) == Ok::<ExtractArgs, Seq<u8>>(
            ExtractArgs { zim: Some(z), out: Some(d), quiet: false },
        ),
        extract_args_spec(seq![z, flag_out(), d]) == Ok::<ExtractArgs, Seq<u8>>(
            ExtractArgs { zim: Some(z), out: Some(d), quiet: false },
        ),
        extract_args_spec(seq![flag_o(), d, z]) == Ok::<ExtractArgs, Seq<u8>>(
            ExtractArgs { zim: Some(z), out: Some(d), quiet: false },
        ),
        extract_args_spec(seq![flag_out(), d, z]) == Ok::<ExtractArgs, Seq<u8>>(
            ExtractArgs { zim: Some(z), out: Some(d), quiet: false },
        ),
{
    assert(z != flag_o() && z != flag_out() && z != flag_q() && z != flag_quiet());
    reveal_with_fuel(extract_args_from, 4);
}

} // verus!
