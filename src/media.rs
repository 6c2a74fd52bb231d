//! Arguments for the external media tool. Running it is left to the caller.
use vstd::prelude::*;

use crate::adapters::decimal_string;
use crate::model::strings_view;

verus! {

pub open spec fn digit_char(d: nat) -> char {
    if d == 0 {
        '0'
    } else if d == 1 {
        '1'
    } else if d == 2 {
        '2'
    } else if d == 3 {
        '3'
    } else if d == 4 {
        '4'
    } else if d == 5 {
        '5'
    } else if d == 6 {
        '6'
    } else if d == 7 {
        '7'
    } else if d == 8 {
        '8'
    } else {
        '9'
    }
}

/// The decimal digits of `n`, most significant first, without leading zeros.
pub open spec fn decimal(n: nat) -> Seq<char>
    decreases n,
{
    if n < 10 {
        seq![digit_char(n)]
    } else {
        decimal(n / 10).push(digit_char(n % 10))
    }
}

/// The encoder settings of a quality preset: the constant rate factor and
/// the speed preset. Unknown names get the medium settings.
pub open spec fn quality_settings(quality: Seq<char>) -> (Seq<char>, Seq<char>) {
    if quality == "high"@ {
        ("22"@, "medium"@)
    } else if quality == "low"@ {
        ("34"@, "fast"@)
    } else {
        ("28"@, "fast"@)
    }
}

/// The scaling filter: at most `max_width` pixels wide where given, else
/// the preset's own limit (1280 for low, 1920 for medium, none otherwise).
pub open spec fn scale_filter(quality: Seq<char>, max_width: Option<u32>) -> Seq<char> {
    match max_width {
        Some(w) => "scale='min("@ + decimal(w as nat) + ",iw)':-2"@,
        None => if quality == "low"@ {
            "scale='min(1280,iw)':-2"@
        } else if quality == "medium"@ {
            "scale='min(1920,iw)':-2"@
        } else {
            Seq::empty()
        },
    }
}

/// The arguments that re-encode `input` into `output` with H.264 and AAC.
pub open spec fn compress_args(
    input: Seq<char>,
    output: Seq<char>,
    quality: Seq<char>,
    max_width: Option<u32>,
) -> Seq<Seq<char>> {
    let (crf, preset) = quality_settings(quality);
    let vf = scale_filter(quality, max_width);
    let head = seq![
        "-y"@,
        "-i"@,
        input,
        "-c:v"@,
        "libx264"@,
        "-preset"@,
        preset,
        "-crf"@,
        crf,
        "-c:a"@,
        "aac"@,
    ];
    let filter = if vf.len() == 0 {
        Seq::empty()
    } else {
        seq!["-vf"@, vf]
    };
    head + filter + seq![output]
}

/// The arguments for the media tool that compress clip `input` into
/// `output` at the given quality preset, optionally capping the width.
pub fn compress_clip(input: &str, output: &str, quality: &str, max_width: Option<u32>) -> (r: Vec<
    String,
>)
    ensures
        strings_view(r@) == compress_args(input@, output@, quality@, max_width),
{
    let q = quality.to_owned();
    let high = "high".to_owned();
    let low = "low".to_owned();
    let medium = "medium".to_owned();
    let (crf, preset) = if q == high {
        ("22".to_owned(), "medium".to_owned())
    } else if q == low {
        ("34".to_owned(), "fast".to_owned())
    } else {
        ("28".to_owned(), "fast".to_owned())
    };
    let vf = match max_width {
        Some(w) => {
            let digits = decimal_string(w);
            let head = "scale='min(".to_owned();
            let with_digits = head.concat(digits.as_str());
            with_digits.concat(",iw)':-2")
        },
        None => {
            if q == low {
                "scale='min(1280,iw)':-2".to_owned()
            } else if q == medium {
                "scale='min(1920,iw)':-2".to_owned()
            } else {
                String::new()
            }
        },
    };
    let mut args: Vec<String> = Vec::new();
    args.push("-y".to_owned());
    args.push("-i".to_owned());
    args.push(input.to_owned());
    args.push("-c:v".to_owned());
    args.push("libx264".to_owned());
    args.push("-preset".to_owned());
    args.push(preset);
    args.push("-crf".to_owned());
    args.push(crf);
    args.push("-c:a".to_owned());
    args.push("aac".to_owned());
    if vf.unicode_len() > 0 {
        args.push("-vf".to_owned());
        args.push(vf);
    }
    args.push(output.to_owned());
    assert(strings_view(args@) =~= compress_args(input@, output@, quality@, max_width));
    args
}

} // verus!
