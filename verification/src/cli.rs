use vstd::prelude::*;
use vstd::utf8::encode_utf8;
use crate::decimal::{
    lemma_digits_value_nonneg, parse_i32, parse_u32, parse_usize, signed_text_value,
    unsigned_digits, unsigned_text_value,
};

verus! {

/// The option whose value is not an integer of the option's type.
#[derive(Debug, Clone, Copy, PartialEq, Eq, Structural)]
pub enum ArgError {
    /// `--width` was not followed by a `usize`.
    Width,
    /// `--height` was not followed by a `usize`.
    Height,
    /// `--samples` was not followed by a `u32`.
    Samples,
    /// `--depth` was not followed by an `i32`.
    Depth,
}

/// Render settings read from the command line.
pub struct Config {
    /// Image width in pixels.
    pub width: usize,
    /// Image height in pixels.
    pub height: usize,
    /// Samples taken per pixel.
    pub samples: u32,
    /// Maximum number of bounces of a ray.
    pub depth: i32,
    /// Path of the output image.
    pub out: String,
}

/// A `Config` with its path taken as characters.
pub struct ConfigView {
    pub width: usize,
    pub height: usize,
    pub samples: u32,
    pub depth: i32,
    pub out: Seq<char>,
}

impl View for Config {
    type V = ConfigView;

    open spec fn view(&self) -> ConfigView {
        ConfigView {
            width: self.width,
            height: self.height,
            samples: self.samples,
            depth: self.depth,
            out: self.out@,
        }
    }
}

/// The path written to when `--out` is not given: `render.ppm`.
pub open spec fn default_out() -> Seq<char> {
    seq!['r', 'e', 'n', 'd', 'e', 'r', '.', 'p', 'p', 'm']
}

/// Settings before any option is read: 400 by 225 pixels, 20 samples,
/// depth 20, output `render.ppm`.
pub open spec fn default_view() -> ConfigView {
    ConfigView { width: 400, height: 225, samples: 20, depth: 20, out: default_out() }
}

/// UTF-8 bytes of `--width`.
pub open spec fn width_flag() -> Seq<u8> {
    seq![45u8, 45u8, 119u8, 105u8, 100u8, 116u8, 104u8]
}

/// UTF-8 bytes of `--height`.
pub open spec fn height_flag() -> Seq<u8> {
    seq![45u8, 45u8, 104u8, 101u8, 105u8, 103u8, 104u8, 116u8]
}

/// UTF-8 bytes of `--samples`.
pub open spec fn samples_flag() -> Seq<u8> {
    seq![45u8, 45u8, 115u8, 97u8, 109u8, 112u8, 108u8, 101u8, 115u8]
}

/// UTF-8 bytes of `--depth`.
pub open spec fn depth_flag() -> Seq<u8> {
    seq![45u8, 45u8, 100u8, 101u8, 112u8, 116u8, 104u8]
}

/// UTF-8 bytes of `--out`.
pub open spec fn out_flag() -> Seq<u8> {
    seq![45u8, 45u8, 111u8, 117u8, 116u8]
}

/// Whether the unsigned text `v` denotes a number no greater than `max`.
pub open spec fn unsigned_fits(v: Seq<u8>, max: int) -> bool {
    unsigned_text_value(v) is Some && unsigned_text_value(v).unwrap() <= max
}

/// Effect of one option `flag` with its value `value` on the settings `c`:
/// a known numeric option takes its value when that is an integer of the
/// option's type and fails otherwise, `--out` takes the value as the path,
/// and any other option leaves the settings as they are.
pub open spec fn apply_option(c: ConfigView, flag: Seq<u8>, value: Seq<char>) -> Result<
    ConfigView,
    ArgError,
> {
    let v = encode_utf8(value);
    if flag == width_flag() {
        if unsigned_fits(v, usize::MAX as int) {
            Ok(ConfigView { width: unsigned_text_value(v).unwrap() as usize, ..c })
        } else {
            Err(ArgError::Width)
        }
    } else if flag == height_flag() {
        if unsigned_fits(v, usize::MAX as int) {
            Ok(ConfigView { height: unsigned_text_value(v).unwrap() as usize, ..c })
        } else {
            Err(ArgError::Height)
        }
    } else if flag == samples_flag() {
        if unsigned_fits(v, u32::MAX as int) {
            Ok(ConfigView { samples: unsigned_text_value(v).unwrap() as u32, ..c })
        } else {
            Err(ArgError::Samples)
        }
    } else if flag == depth_flag() {
        if signed_text_value(v) is Some && i32::MIN <= signed_text_value(v).unwrap() <= i32::MAX {
            Ok(ConfigView { depth: signed_text_value(v).unwrap() as i32, ..c })
        } else {
            Err(ArgError::Depth)
        }
    } else if flag == out_flag() {
        Ok(ConfigView { out: value, ..c })
    } else {
        Ok(c)
    }
}

/// Reads the options `args[i], args[i + 1]`, `args[i + 2], args[i + 3]`, ...
/// in turn, starting from `c`, while a value follows the option; stops at
/// the first failure.
pub open spec fn options_from(args: Seq<Seq<char>>, i: int, c: ConfigView) -> Result<
    ConfigView,
    ArgError,
>
    decreases args.len() - i,
{
    if 0 <= i && i + 1 < args.len() {
        match apply_option(c, encode_utf8(args[i]), args[i + 1]) {
            Ok(c2) => options_from(args, i + 2, c2),
            Err(e) => Err(e),
        }
    } else {
        Ok(c)
    }
}

/// Settings given by a full argument list whose first entry is the program
/// name: options are read in pairs from the second entry on.
pub open spec fn parsed_options(args: Seq<Seq<char>>) -> Result<ConfigView, ArgError> {
    options_from(args, 1, default_view())
}

/// The views of a list of strings.
pub open spec fn arg_views(args: Seq<String>) -> Seq<Seq<char>> {
    args.map_values(|s: String| s@)
}

/// Whether two byte strings are equal.
fn bytes_equal(a: &[u8], b: &[u8]) -> (r: bool)
    ensures
        r == (a@ == b@),
{
    if a.len() != b.len() {
        return false;
    }
    let mut i: usize = 0;
    while i < a.len()
        invariant
            a@.len() == b@.len(),
            i <= a@.len(),
            forall|j: int| 0 <= j < i ==> a@[j] == b@[j],
        decreases a@.len() - i,
    {
        if a[i] != b[i] {
            return false;
        }
        i = i + 1;
    }
    assert(a@ =~= b@);
    true
}

impl Config {
    /// The settings used when no option is given.
    pub fn defaults() -> (c: Config)
        ensures
            c@ == default_view(),
    {
        let out = "render.ppm".to_owned();
        proof {
            reveal_strlit("render.ppm");
            assert(out@ =~= default_out());
        }
        Config { width: 400, height: 225, samples: 20, depth: 20, out }
    }

    /// Applies one option and its value to these settings, as
    /// `apply_option` says.
    pub fn apply(self, flag: &String, value: &String) -> (r: Result<Config, ArgError>)
        ensures
            (match r {
                Ok(c) => apply_option(self@, encode_utf8(flag@), value@) == Ok::<
                    ConfigView,
                    ArgError,
                >(c@),
                Err(e) => apply_option(self@, encode_utf8(flag@), value@) == Err::<
                    ConfigView,
                    ArgError,
                >(e),
            }),
    {
        let f: &[u8] = flag.as_str().as_bytes();
        let v: &[u8] = value.as_str().as_bytes();
        let width_name: [u8; 7] = [45, 45, 119, 105, 100, 116, 104];
        let height_name: [u8; 8] = [45, 45, 104, 101, 105, 103, 104, 116];
        let samples_name: [u8; 9] = [45, 45, 115, 97, 109, 112, 108, 101, 115];
        let depth_name: [u8; 7] = [45, 45, 100, 101, 112, 116, 104];
        let out_name: [u8; 5] = [45, 45, 111, 117, 116];
        assert(width_name@ =~= width_flag());
        assert(height_name@ =~= height_flag());
        assert(samples_name@ =~= samples_flag());
        assert(depth_name@ =~= depth_flag());
        assert(out_name@ =~= out_flag());
        let mut c = self;
        if bytes_equal(f, width_name.as_slice()) {
            match parse_usize(v) {
                Some(n) => {
                    c.width = n;
                    Ok(c)
                },
                None => Err(ArgError::Width),
            }
        } else if bytes_equal(f, height_name.as_slice()) {
            match parse_usize(v) {
                Some(n) => {
                    c.height = n;
                    Ok(c)
                },
                None => Err(ArgError::Height),
            }
        } else if bytes_equal(f, samples_name.as_slice()) {
            match parse_u32(v) {
                Some(n) => {
                    c.samples = n;
                    Ok(c)
                },
                None => Err(ArgError::Samples),
            }
        } else if bytes_equal(f, depth_name.as_slice()) {
            match parse_i32(v) {
                Some(n) => {
                    c.depth = n;
                    Ok(c)
                },
                None => Err(ArgError::Depth),
            }
        } else if bytes_equal(f, out_name.as_slice()) {
            c.out = value.clone();
            Ok(c)
        } else {
            Ok(c)
        }
    }
}

/// Reads the command line `args` (the program name first, then pairs of an
/// option and its value) as the renderer does: `--width`, `--height`,
/// `--samples`, `--depth` and `--out` set the corresponding setting, a later
/// occurrence overriding an earlier one; any other option is skipped with
/// its value; a last argument without a value is ignored. Fails with the
/// first numeric option whose value is not an integer of its type.
pub fn parse_args(args: &Vec<String>) -> (r: Result<Config, ArgError>)
    ensures
        (match r {
            Ok(c) => parsed_options(arg_views(args@)) == Ok::<ConfigView, ArgError>(c@),
            Err(e) => parsed_options(arg_views(args@)) == Err::<ConfigView, ArgError>(e),
        }),
{
    let ghost views = arg_views(args@);
    let mut c = Config::defaults();
    let mut i: usize = 1;
    while i < args.len() && i + 1 < args.len()
        invariant
            1 <= i,
            views == arg_views(args@),
            views.len() == args@.len(),
            parsed_options(views) == options_from(views, i as int, c@),
        decreases args@.len() - i,
    {
        let ghost before = c@;
        assert(views[i as int] == args@[i as int]@);
        assert(views[i + 1] == args@[i + 1]@);
        match c.apply(&args[i], &args[i + 1]) {
            Ok(next) => {
                c = next;
            },
            Err(e) => {
                return Err(e);
            },
        }
        i = i + 2;
    }
    Ok(c)
}

/// Reading from an index with an even number of arguments left ignores one
/// more argument pushed at the end.
proof fn lemma_options_from_ignore_last(args: Seq<Seq<char>>, x: Seq<char>, i: int, c: ConfigView)
    requires
        0 <= i <= args.len(),
        (args.len() - i) % 2 == 0,
    ensures
        options_from(args.push(x), i, c) == options_from(args, i, c),
    decreases args.len() - i,
{
    let longer = args.push(x);
    if i + 1 < args.len() {
        assert(longer[i] == args[i]);
        assert(longer[i + 1] == args[i + 1]);
        match apply_option(c, encode_utf8(args[i]), args[i + 1]) {
            Ok(c2) => lemma_options_from_ignore_last(args, x, i + 2, c2),
            Err(e) => {},
        }
    }
}

/// Reading from an index with an even number of arguments left, then one
/// more option with its value, is reading up to the end and then applying
/// that option.
proof fn lemma_options_from_append_pair(
    args: Seq<Seq<char>>,
    flag: Seq<char>,
    value: Seq<char>,
    i: int,
    c: ConfigView,
)
    requires
        0 <= i <= args.len(),
        (args.len() - i) % 2 == 0,
    ensures
        options_from(args + seq![flag, value], i, c) == (match options_from(args, i, c) {
            Ok(c2) => apply_option(c2, encode_utf8(flag), value),
            Err(e) => Err(e),
        }),
    decreases args.len() - i,
{
    let longer = args + seq![flag, value];
    if i + 1 < args.len() {
        assert(longer[i] == args[i]);
        assert(longer[i + 1] == args[i + 1]);
        match apply_option(c, encode_utf8(args[i]), args[i + 1]) {
            Ok(c2) => lemma_options_from_append_pair(args, flag, value, i + 2, c2),
            Err(e) => {},
        }
    } else {
        assert(i == args.len());
        assert(longer[i] == flag);
        assert(longer[i + 1] == value);
        match apply_option(c, encode_utf8(flag), value) {
            Ok(c2) => {
                assert(options_from(longer, i + 2, c2) == Ok::<ConfigView, ArgError>(c2));
            },
            Err(e) => {},
        }
    }
}

/// On a command line made of the program name and option-value pairs, a
/// further argument without a value changes nothing.
pub proof fn lemma_trailing_argument_ignored(args: Seq<Seq<char>>, x: Seq<char>)
    requires
        args.len() % 2 == 1,
    ensures
        parsed_options(args.push(x)) == parsed_options(args),
{
    lemma_options_from_ignore_last(args, x, 1, default_view());
}

/// Options take effect from left to right: on a command line made of the
/// program name and option-value pairs, one more pair acts on the settings
/// the earlier ones produced, so a later occurrence of an option overrides
/// an earlier one, and an earlier failure stands.
pub proof fn lemma_later_option_applies_last(args: Seq<Seq<char>>, flag: Seq<char>, value: Seq<char>)
    requires
        args.len() % 2 == 1,
    ensures
        parsed_options(args + seq![flag, value]) == (match parsed_options(args) {
            Ok(c) => apply_option(c, encode_utf8(flag), value),
            Err(e) => Err(e),
        }),
{
    lemma_options_from_append_pair(args, flag, value, 1, default_view());
}

/// An unsigned integer text never denotes a negative number.
proof fn lemma_unsigned_value_nonneg(v: Seq<u8>)
    ensures
        unsigned_text_value(v) is Some ==> unsigned_text_value(v).unwrap() >= 0,
{
    if unsigned_text_value(v) is Some {
        lemma_digits_value_nonneg(unsigned_digits(v));
    }
}

/// `--width` followed by the text of a `usize` n sets the width to exactly
/// n and leaves every other setting as it was; any other value fails with
/// `ArgError::Width`.
pub proof fn lemma_width_option(c: ConfigView, value: Seq<char>)
    ensures
        ({
            let flag = seq![45u8, 45u8, 119u8, 105u8, 100u8, 116u8, 104u8];
            let n = unsigned_text_value(encode_utf8(value));
            &&& (n is Some && 0 <= n.unwrap() <= usize::MAX) ==> apply_option(c, flag, value)
                == Ok::<ConfigView, ArgError>(
                ConfigView {
                    width: n.unwrap() as usize,
                    height: c.height,
                    samples: c.samples,
                    depth: c.depth,
                    out: c.out,
                },
            )
            &&& !(n is Some && 0 <= n.unwrap() <= usize::MAX) ==> apply_option(c, flag, value)
                == Err::<ConfigView, ArgError>(ArgError::Width)
        }),
{
    let flag = seq![45u8, 45u8, 119u8, 105u8, 100u8, 116u8, 104u8];
    assert(flag =~= width_flag());
    lemma_unsigned_value_nonneg(encode_utf8(value));
}

/// `--height` followed by the text of a `usize` n sets the height to
/// exactly n and leaves every other setting as it was; any other value
/// fails with `ArgError::Height`.
pub proof fn lemma_height_option(c: ConfigView, value: Seq<char>)
    ensures
        ({
            let flag = seq![45u8, 45u8, 104u8, 101u8, 105u8, 103u8, 104u8, 116u8];
            let n = unsigned_text_value(encode_utf8(value));
            &&& (n is Some && 0 <= n.unwrap() <= usize::MAX) ==> apply_option(c, flag, value)
                == Ok::<ConfigView, ArgError>(
                ConfigView {
                    width: c.width,
                    height: n.unwrap() as usize,
                    samples: c.samples,
                    depth: c.depth,
                    out: c.out,
                },
            )
            &&& !(n is Some && 0 <= n.unwrap() <= usize::MAX) ==> apply_option(c, flag, value)
                == Err::<ConfigView, ArgError>(ArgError::Height)
        }),
{
    assert(seq![45u8, 45u8, 104u8, 101u8, 105u8, 103u8, 104u8, 116u8] =~= height_flag());
    assert(height_flag() != width_flag());
    lemma_unsigned_value_nonneg(encode_utf8(value));
}

/// `--samples` followed by the text of a `u32` n sets the sample count to
/// exactly n, however large, and leaves every other setting as it was; any
/// other value fails with `ArgError::Samples`.
pub proof fn lemma_samples_option(c: ConfigView, value: Seq<char>)
    ensures
        ({
            let flag = seq![45u8, 45u8, 115u8, 97u8, 109u8, 112u8, 108u8, 101u8, 115u8];
            let n = unsigned_text_value(encode_utf8(value));
            &&& (n is Some && 0 <= n.unwrap() <= u32::MAX) ==> apply_option(c, flag, value)
                == Ok::<ConfigView, ArgError>(
                ConfigView {
                    width: c.width,
                    height: c.height,
                    samples: n.unwrap() as u32,
                    depth: c.depth,
                    out: c.out,
                },
            )
            &&& !(n is Some && 0 <= n.unwrap() <= u32::MAX) ==> apply_option(c, flag, value)
                == Err::<ConfigView, ArgError>(ArgError::Samples)
        }),
{
    assert(seq![45u8, 45u8, 115u8, 97u8, 109u8, 112u8, 108u8, 101u8, 115u8] =~= samples_flag());
    assert(samples_flag() != width_flag());
    assert(samples_flag() != height_flag());
    lemma_unsigned_value_nonneg(encode_utf8(value));
}

/// `--depth` followed by the text of an `i32` n sets the depth to exactly n
/// and leaves every other setting as it was; any other value fails with
/// `ArgError::Depth`.
pub proof fn lemma_depth_option(c: ConfigView, value: Seq<char>)
    ensures
        ({
            let flag = seq![45u8, 45u8, 100u8, 101u8, 112u8, 116u8, 104u8];
            let n = signed_text_value(encode_utf8(value));
            &&& (n is Some && i32::MIN <= n.unwrap() <= i32::MAX) ==> apply_option(c, flag, value)
                == Ok::<ConfigView, ArgError>(
                ConfigView {
                    width: c.width,
                    height: c.height,
                    samples: c.samples,
                    depth: n.unwrap() as i32,
                    out: c.out,
                },
            )
            &&& !(n is Some && i32::MIN <= n.unwrap() <= i32::MAX) ==> apply_option(
                c,
                flag,
                value,
            ) == Err::<ConfigView, ArgError>(ArgError::Depth)
        }),
{
    assert(seq![45u8, 45u8, 100u8, 101u8, 112u8, 116u8, 104u8] =~= depth_flag());
    assert(depth_flag()[2] != width_flag()[2]);
    assert(depth_flag() != height_flag());
    assert(depth_flag() != samples_flag());
}

/// `--out` followed by any text makes that text the output path and leaves
/// every other setting as it was.
pub proof fn lemma_out_option(c: ConfigView, value: Seq<char>)
    ensures
        apply_option(c, seq![45u8, 45u8, 111u8, 117u8, 116u8], value) == Ok::<ConfigView, ArgError>(
            ConfigView {
                width: c.width,
                height: c.height,
                samples: c.samples,
                depth: c.depth,
                out: value,
            },
        ),
{
    assert(seq![45u8, 45u8, 111u8, 117u8, 116u8] =~= out_flag());
    assert(out_flag() != width_flag());
    assert(out_flag() != height_flag());
    assert(out_flag() != samples_flag());
    assert(out_flag() != depth_flag());
}

/// An option that is none of the five leaves the settings as they were,
/// whatever its value.
pub proof fn lemma_unknown_option(c: ConfigView, flag: Seq<u8>, value: Seq<char>)
    requires
        flag != seq![45u8, 45u8, 119u8, 105u8, 100u8, 116u8, 104u8],
        flag != seq![45u8, 45u8, 104u8, 101u8, 105u8, 103u8, 104u8, 116u8],
        flag != seq![45u8, 45u8, 115u8, 97u8, 109u8, 112u8, 108u8, 101u8, 115u8],
        flag != seq![45u8, 45u8, 100u8, 101u8, 112u8, 116u8, 104u8],
        flag != seq![45u8, 45u8, 111u8, 117u8, 116u8],
    ensures
        apply_option(c, flag, value) == Ok::<ConfigView, ArgError>(c),
{
    assert(seq![45u8, 45u8, 119u8, 105u8, 100u8, 116u8, 104u8] =~= width_flag());
    assert(seq![45u8, 45u8, 104u8, 101u8, 105u8, 103u8, 104u8, 116u8] =~= height_flag());
    assert(seq![45u8, 45u8, 115u8, 97u8, 109u8, 112u8, 108u8, 101u8, 115u8] =~= samples_flag());
    assert(seq![45u8, 45u8, 100u8, 101u8, 112u8, 116u8, 104u8] =~= depth_flag());
    assert(seq![45u8, 45u8, 111u8, 117u8, 116u8] =~= out_flag());
}

/// A command line holding one option and its value gives the defaults with
/// that option applied.
pub proof fn lemma_single_option(program: Seq<char>, flag: Seq<char>, value: Seq<char>)
    ensures
        parsed_options(seq![program, flag, value]) == apply_option(
            default_view(),
            encode_utf8(flag),
            value,
        ),
{
    lemma_later_option_applies_last(seq![program], flag, value);
    assert(seq![program] + seq![flag, value] =~= seq![program, flag, value]);
}

} // verus!
