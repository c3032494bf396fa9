//! Path handling for the pipeline driver: which input arguments are image
//! files, the display name of a path, and the names of the output files.

use vstd::prelude::*;

verus! {

/// `s` with every trailing `/` removed.
pub open spec fn strip_trailing_slashes(s: Seq<char>) -> Seq<char>
    decreases s.len(),
{
    if s.len() > 0 && s.last() == '/' {
        strip_trailing_slashes(s.drop_last())
    } else {
        s
    }
}

/// Everything after the last `/` of `s`, or the whole of `s` when it has
/// none.
pub open spec fn basename_of(s: Seq<char>) -> Seq<char>
    decreases s.len(),
{
    if s.len() == 0 {
        s
    } else if s.last() == '/' {
        Seq::empty()
    } else {
        basename_of(s.drop_last()).push(s.last())
    }
}

/// The file name of a path, per the usual path rules: trailing separators
/// are ignored, and a final component of `.` or `..` names no file.
pub open spec fn file_name_of(path: Seq<char>) -> Seq<char> {
    let comp = basename_of(strip_trailing_slashes(path));
    if comp == seq!['.'] || comp == seq!['.', '.'] {
        Seq::<char>::empty()
    } else {
        comp
    }
}

/// Everything after the last `.` of `s`, or `None` when `s` has no `.`.
pub open spec fn dotted_suffix(s: Seq<char>) -> Option<Seq<char>>
    decreases s.len(),
{
    if s.len() == 0 {
        None
    } else if s.last() == '.' {
        Some(Seq::empty())
    } else {
        match dotted_suffix(s.drop_last()) {
            Some(e) => Some(e.push(s.last())),
            None => None,
        }
    }
}

/// Whether the path names an image file: its file name has an extension (a
/// `.` not in leading position) that is exactly `iso` or `xiso`.
pub open spec fn spec_is_iso(path: Seq<char>) -> bool {
    let name = file_name_of(path);
    &&& name.len() > 0
    &&& {
        let ext = dotted_suffix(name.subrange(1, name.len() as int));
        ext == Some("iso"@) || ext == Some("xiso"@)
    }
}

/// Stripping trailing separators keeps exactly the prefix up to the last
/// character that is not a `/`.
proof fn lemma_strip_position(s: Seq<char>, e: int)
    requires
        0 <= e <= s.len(),
        e == 0 || s[e - 1] != '/',
        forall|j: int| e <= j < s.len() ==> s[j] == '/',
    ensures
        strip_trailing_slashes(s) == s.subrange(0, e),
    decreases s.len(),
{
    if s.len() == 0 {
        assert(strip_trailing_slashes(s) =~= s.subrange(0, e));
    } else if s.last() == '/' {
        assert(e < s.len());
        lemma_strip_position(s.drop_last(), e);
        assert(s.drop_last().subrange(0, e) =~= s.subrange(0, e));
    } else {
        assert(e == s.len()) by {
            if e < s.len() {
                assert(s[s.len() - 1] == '/');
            }
        }
        assert(s.subrange(0, e) =~= s);
    }
}

/// The final component is the suffix that follows the last `/`.
proof fn lemma_basename_position(s: Seq<char>, k: int)
    requires
        0 <= k <= s.len(),
        k == 0 || s[k - 1] == '/',
        forall|j: int| k <= j < s.len() ==> s[j] != '/',
    ensures
        basename_of(s) == s.subrange(k, s.len() as int),
    decreases s.len(),
{
    if s.len() == 0 {
        assert(basename_of(s) =~= s.subrange(k, s.len() as int));
    } else if k == s.len() {
        assert(s.last() == '/');
        assert(basename_of(s) =~= s.subrange(k, s.len() as int));
    } else {
        assert(s[s.len() - 1] != '/');
        lemma_basename_position(s.drop_last(), k);
        assert(basename_of(s.drop_last()).push(s.last()) =~= s.subrange(k, s.len() as int));
    }
}

/// A sequence without a `.` has no dotted suffix.
proof fn lemma_dotted_none(s: Seq<char>)
    requires
        forall|j: int| 0 <= j < s.len() ==> s[j] != '.',
    ensures
        dotted_suffix(s) is None,
    decreases s.len(),
{
    if s.len() > 0 {
        lemma_dotted_none(s.drop_last());
    }
}

/// The dotted suffix is the suffix that follows the last `.`.
proof fn lemma_dotted_position(s: Seq<char>, k: int)
    requires
        0 <= k < s.len(),
        s[k] == '.',
        forall|j: int| k < j < s.len() ==> s[j] != '.',
    ensures
        dotted_suffix(s) == Some(s.subrange(k + 1, s.len() as int)),
    decreases s.len(),
{
    if k == s.len() - 1 {
        assert(dotted_suffix(s) =~= Some(Seq::<char>::empty()));
        assert(Seq::<char>::empty() =~= s.subrange(k + 1, s.len() as int));
    } else {
        assert(s[s.len() - 1] != '.');
        lemma_dotted_position(s.drop_last(), k);
        assert(s.drop_last().subrange(k + 1, s.len() - 1).push(s.last()) =~= s.subrange(
            k + 1,
            s.len() as int,
        ));
    }
}

/// The bounds of the final path component of `fp`: the component sits at
/// `r.0 .. r.1`, past the last `/` of the path with its trailing `/`s
/// stripped.
fn file_name_bounds(fp: &str) -> (r: (usize, usize))
    ensures
        r.0 <= r.1 <= fp@.len(),
        strip_trailing_slashes(fp@) == fp@.subrange(0, r.1 as int),
        basename_of(strip_trailing_slashes(fp@)) == fp@.subrange(r.0 as int, r.1 as int),
{
    let len = fp.unicode_len();
    // one past the last character that is not a separator
    let mut end: usize = 0;
    let mut i: usize = 0;
    while i < len
        invariant
            i <= len,
            len == fp@.len(),
            end <= i,
            end == 0 || fp@[end - 1] != '/',
            forall|j: int| end <= j < i ==> fp@[j] == '/',
        decreases len - i,
    {
        if fp.get_char(i) != '/' {
            end = i + 1;
        }
        i = i + 1;
    }
    proof {
        lemma_strip_position(fp@, end as int);
    }
    // one past the last separator before `end`
    let mut start: usize = 0;
    let mut k: usize = 0;
    while k < end
        invariant
            k <= end <= fp@.len(),
            start <= k,
            start == 0 || fp@[start - 1] == '/',
            forall|j: int| start <= j < k ==> fp@[j] != '/',
        decreases end - k,
    {
        if fp.get_char(k) == '/' {
            start = k + 1;
        }
        k = k + 1;
    }
    proof {
        let stripped = fp@.subrange(0, end as int);
        lemma_basename_position(stripped, start as int);
        assert(stripped.subrange(start as int, end as int) =~= fp@.subrange(
            start as int,
            end as int,
        ));
    }
    (start, end)
}

/// The file name of a path: its final component with trailing separators
/// ignored, or the empty string when the path names no file (it is empty,
/// all separators, or ends in `.` or `..`).
pub fn get_filename_from_path(fp: &String) -> (r: String)
    ensures
        r@ == file_name_of(fp@),
{
    let s = fp.as_str();
    let (start, end) = file_name_bounds(s);
    let ghost comp = basename_of(strip_trailing_slashes(fp@));
    let comp_len = end - start;
    let dot1 = comp_len == 1 && s.get_char(start) == '.';
    let dot2 = comp_len == 2 && s.get_char(start) == '.' && s.get_char(start + 1) == '.';
    proof {
        if dot1 {
            assert(comp =~= seq!['.']);
        }
        if dot2 {
            assert(comp =~= seq!['.', '.']);
        }
        if !dot1 && !dot2 {
            assert(comp != seq!['.']) by {
                if comp == seq!['.'] {
                    assert(comp.len() == 1);
                    assert(comp[0] == '.');
                }
            }
            assert(comp != seq!['.', '.']) by {
                if comp == seq!['.', '.'] {
                    assert(comp.len() == 2);
                    assert(comp[0] == '.');
                    assert(comp[1] == '.');
                }
            }
        }
    }
    if dot1 || dot2 {
        String::new()
    } else {
        let name = s.substring_char(start, end);
        name.to_owned()
    }
}

/// Whether the path names an image file by its extension: exactly `iso` or
/// `xiso`, case sensitive. Anything else is skipped by the driver.
pub fn is_iso(fp: &String) -> (r: bool)
    ensures
        r == spec_is_iso(fp@),
{
    let s = fp.as_str();
    let (start, end) = file_name_bounds(s);
    let ghost comp = basename_of(strip_trailing_slashes(fp@));
    if start == end {
        // no final component at all
        proof {
            assert(comp.len() == 0);
        }
        return false;
    }
    let comp_len = end - start;
    let dot1 = comp_len == 1 && s.get_char(start) == '.';
    let dot2 = comp_len == 2 && s.get_char(start) == '.' && s.get_char(start + 1) == '.';
    if dot1 || dot2 {
        // `.` and `..` name no file
        proof {
            if dot1 {
                assert(comp =~= seq!['.']);
            } else {
                assert(comp =~= seq!['.', '.']);
            }
        }
        return false;
    }
    proof {
        assert(comp != seq!['.']) by {
            if comp == seq!['.'] {
                assert(comp.len() == 1);
                assert(comp[0] == '.');
            }
        }
        assert(comp != seq!['.', '.']) by {
            if comp == seq!['.', '.'] {
                assert(comp.len() == 2);
                assert(comp[0] == '.');
                assert(comp[1] == '.');
            }
        }
    }
    let ghost name = file_name_of(fp@);
    proof {
        assert(name == comp);
        assert(name.subrange(1, name.len() as int) =~= s@.subrange(start as int + 1, end as int));
    }
    // find the last '.' strictly after the component's first character
    let mut dot: usize = 0;
    let mut has_dot = false;
    let mut i: usize = start + 1;
    while i < end
        invariant
            start + 1 <= i <= end,
            end <= s@.len(),
            has_dot ==> start + 1 <= dot < i && s@[dot as int] == '.',
            forall|j: int| start + 1 <= j < i && (!has_dot || dot < j) ==> s@[j] != '.',
        decreases end - i,
    {
        if s.get_char(i) == '.' {
            dot = i;
            has_dot = true;
        }
        i = i + 1;
    }
    let ghost tail = name.subrange(1, name.len() as int);
    if !has_dot {
        proof {
            assert forall|j: int| 0 <= j < tail.len() implies tail[j] != '.' by {
                assert(tail[j] == s@[start + 1 + j]);
            }
            lemma_dotted_none(tail);
        }
        return false;
    }
    proof {
        assert(tail[dot - start - 1] == '.');
        assert forall|j: int| dot - start - 1 < j < tail.len() implies tail[j] != '.' by {
            assert(tail[j] == s@[start + 1 + j]);
        }
        lemma_dotted_position(tail, dot as int - start as int - 1);
        assert(dotted_suffix(tail) == Some(s@.subrange(dot as int + 1, end as int)));
    }
    // compare the extension against the two accepted ones
    let ext_len = end - (dot + 1);
    let r = if ext_len == 3 {
        let c1 = s.get_char(dot + 1);
        let c2 = s.get_char(dot + 2);
        let c3 = s.get_char(dot + 3);
        let ok = c1 == 'i' && c2 == 's' && c3 == 'o';
        proof {
            let sub = s@.subrange(dot as int + 1, end as int);
            assert(sub.len() == 3);
            assert(sub[0] == s@[dot as int + 1]);
            assert(sub[1] == s@[dot as int + 2]);
            assert(sub[2] == s@[dot as int + 3]);
            reveal_strlit("iso");
            reveal_strlit("xiso");
            assert("iso"@.len() == 3 && "iso"@[0] == 'i' && "iso"@[1] == 's' && "iso"@[2] == 'o');
            assert("xiso"@.len() == 4);
            if ok {
                assert(sub =~= "iso"@);
            } else {
                assert(sub != "iso"@);
            }
            assert(sub != "xiso"@);
        }
        ok
    } else if ext_len == 4 {
        let c1 = s.get_char(dot + 1);
        let c2 = s.get_char(dot + 2);
        let c3 = s.get_char(dot + 3);
        let c4 = s.get_char(dot + 4);
        let ok = c1 == 'x' && c2 == 'i' && c3 == 's' && c4 == 'o';
        proof {
            let sub = s@.subrange(dot as int + 1, end as int);
            assert(sub.len() == 4);
            assert(sub[0] == s@[dot as int + 1]);
            assert(sub[1] == s@[dot as int + 2]);
            assert(sub[2] == s@[dot as int + 3]);
            assert(sub[3] == s@[dot as int + 4]);
            reveal_strlit("iso");
            reveal_strlit("xiso");
            assert("xiso"@.len() == 4 && "xiso"@[0] == 'x' && "xiso"@[1] == 'i' && "xiso"@[2]
                == 's' && "xiso"@[3] == 'o');
            assert("iso"@.len() == 3);
            if ok {
                assert(sub =~= "xiso"@);
            } else {
                assert(sub != "xiso"@);
            }
            assert(sub != "iso"@);
        }
        ok
    } else {
        proof {
            reveal_strlit("iso");
            reveal_strlit("xiso");
            assert(s@.subrange(dot as int + 1, end as int).len() == ext_len as int);
        }
        false
    };
    r
}

/// The decimal digit `d` as a character.
pub open spec fn digit_char(d: int) -> char {
    "0123456789"@[d]
}

/// The decimal digits of `n`, most significant first.
pub open spec fn dec_digits(n: int) -> Seq<char>
    decreases n,
{
    if n < 10 {
        seq![digit_char(n)]
    } else {
        dec_digits(n / 10).push(digit_char(n % 10))
    }
}

/// Appends the decimal digits of `n` to `out`.
fn push_decimal(out: &mut String, n: u64)
    ensures
        final(out)@ == old(out)@ + dec_digits(n as int),
    decreases n,
{
    if n >= 10 {
        push_decimal(out, n / 10);
    }
    let d = (n % 10) as usize;
    let digits = "0123456789";
    proof {
        reveal_strlit("0123456789");
        assert(digits.is_ascii());
    }
    let ds = digits.substring_ascii(d, d + 1);
    out.append(ds);
    proof {
        assert(ds@ =~= seq![digit_char(n as int % 10)]);
        assert(out@ =~= old(out)@ + dec_digits(n as int));
    }
}

/// The name of output file number `file_no` for the input path `fp`.
pub open spec fn dest_path_of(fp: Seq<char>, file_no: int) -> Seq<char> {
    fp + seq!['.'] + dec_digits(file_no) + seq!['.', 'c', 's', 'o']
}

/// Builds the name of output file number `file_no` for the input path
/// `fp`: the input path with `.<file_no>.cso` appended.
pub fn dest_path(fp: &String, file_no: u64) -> (r: String)
    ensures
        r@ == dest_path_of(fp@, file_no as int),
{
    let mut out = fp.clone();
    out.append(".");
    push_decimal(&mut out, file_no);
    out.append(".cso");
    proof {
        reveal_strlit(".");
        reveal_strlit(".cso");
        assert(out@ =~= dest_path_of(fp@, file_no as int));
    }
    out
}

} // verus!
