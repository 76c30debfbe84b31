//! Object paths: a path without a colon names a local file; an object-store
//! path has the form `s3:<bucket>:<key>` with exactly two colons and a
//! non-empty bucket and key. Anything else is malformed.

use vstd::prelude::*;
use vstd::string::{StrSliceExecFns, StringExecFns};
use crate::errors::OpsError;
use crate::text::{spec_digits, u64_to_string};

verus! {

/// A parsed object path: a local file or an object-store location.
#[derive(Debug)]
pub enum ObjectPath {
    Local { path: String },
    Store { bucket: String, key: String },
}

/// No character of `s` in `[lo, hi)` is a colon.
pub open spec fn spec_colon_free(s: Seq<char>, lo: int, hi: int) -> bool {
    forall|i: int| lo <= i < hi ==> s[i] != ':'
}

/// `j` splits `s` as `s3:<bucket>:<key>` with non-empty bucket and key.
pub open spec fn spec_store_split(s: Seq<char>, j: int) -> bool {
    &&& s.len() >= 6
    &&& s[0] == 's' && s[1] == '3' && s[2] == ':'
    &&& 4 <= j <= s.len() - 2
    &&& s[j] == ':'
    &&& spec_colon_free(s, 3, j)
    &&& spec_colon_free(s, j + 1, s.len() as int)
}

/// Parse an object path.
///
/// A string without a colon is a local path, returned verbatim. A string of
/// the form `s3:<bucket>:<key>` — exactly two colons, non-empty bucket and
/// key — names an object-store location. Every other string fails with
/// `BadPath`.
pub fn parse_object_path(s: &str) -> (r: Result<ObjectPath, OpsError>)
    ensures
        match r {
            Ok(p) => match p {
                ObjectPath::Local { path } => path@ == s@ && spec_colon_free(
                    s@,
                    0,
                    s@.len() as int,
                ),
                ObjectPath::Store { bucket, key } => exists|j: int|
                    #![auto]
                    spec_store_split(s@, j) && bucket@ == s@.subrange(3, j) && key@ == s@.subrange(
                        j + 1,
                        s@.len() as int,
                    ),
            },
            Err(e) => e is BadPath && !spec_colon_free(s@, 0, s@.len() as int) && (forall|j: int|
                !spec_store_split(s@, j)),
        },
{
    let n: usize = s.unicode_len();
    let mut first: Option<usize> = None;
    let mut second: Option<usize> = None;
    let mut third: bool = false;
    let mut i: usize = 0;
    while i < n
        invariant
            n == s@.len(),
            0 <= i <= n,
            match first {
                None => second is None && !third && spec_colon_free(s@, 0, i as int),
                Some(a) => {
                    &&& a < i
                    &&& s@[a as int] == ':'
                    &&& spec_colon_free(s@, 0, a as int)
                    &&& match second {
                        None => !third && spec_colon_free(s@, a + 1, i as int),
                        Some(b) => {
                            &&& a < b < i
                            &&& s@[b as int] == ':'
                            &&& spec_colon_free(s@, a + 1, b as int)
                            &&& (!third ==> spec_colon_free(s@, b + 1, i as int))
                            &&& (third ==> exists|c: int| b < c < i && s@[c] == ':')
                        },
                    }
                },
            },
        decreases n - i,
    {
        let ch = s.get_char(i);
        if ch == ':' {
            match first {
                None => {
                    first = Some(i);
                },
                Some(_) => {
                    match second {
                        None => {
                            second = Some(i);
                        },
                        Some(_) => {
                            third = true;
                        },
                    }
                },
            }
        }
        i = i + 1;
    }
    match first {
        None => Ok(ObjectPath::Local { path: s.to_owned() }),
        Some(a) => {
            match second {
                Some(b) => {
                    if !third && a == 2 && n >= 2 && s.get_char(0) == 's' && s.get_char(1) == '3'
                        && b > 3 && b + 1 < n {
                        let bucket = s.substring_char(3, b).to_owned();
                        let key = s.substring_char(b + 1, n).to_owned();
                        proof {
                            assert(spec_store_split(s@, b as int));
                        }
                        Ok(ObjectPath::Store { bucket, key })
                    } else {
                        proof {
                            assert forall|j: int| !spec_store_split(s@, j) by {
                                if spec_store_split(s@, j) {
                                    assert(s@[2] == ':');
                                    assert(a == 2);
                                    assert(s@[j] != ':' || j == b || j == 2) by {
                                        if 3 <= j < b {
                                            assert(spec_colon_free(s@, a + 1, b as int));
                                        }
                                    }
                                    assert(j == b);
                                    if third {
                                        let c = choose|c: int|
                                            b < c < s@.len() && s@[c] == ':';
                                        assert(spec_colon_free(s@, j + 1, s@.len() as int));
                                        assert(false);
                                    }
                                    assert(false);
                                }
                            }
                        }
                        Err(OpsError::BadPath)
                    }
                },
                None => {
                    proof {
                        assert forall|j: int| !spec_store_split(s@, j) by {
                            if spec_store_split(s@, j) {
                                assert(s@[2] == ':');
                                assert(a == 2);
                                assert(s@[j] == ':' && j > a);
                                assert(spec_colon_free(s@, a + 1, n as int));
                                assert(false);
                            }
                        }
                    }
                    Err(OpsError::BadPath)
                },
            }
        },
    }
}

/// True when the path ends in `.parquet`.
pub open spec fn spec_ends_parquet(s: Seq<char>) -> bool {
    s.len() >= 8 && s.subrange(s.len() - 8, s.len() as int) == ".parquet"@
}

/// Derive the path of intermediate partition `index` from the final output
/// path: the `.parquet` suffix is replaced by `intermediate-<index>.parquet`;
/// a path without that suffix gets the same text appended.
pub fn intermediate_path(sorted_path: &str, index: u64) -> (r: String)
    ensures
        spec_ends_parquet(sorted_path@) ==> r@ == sorted_path@.take(sorted_path@.len() - 8)
            + "intermediate-"@ + spec_digits(index as nat) + ".parquet"@,
        !spec_ends_parquet(sorted_path@) ==> r@ == sorted_path@ + "intermediate-"@ + spec_digits(
            index as nat,
        ) + ".parquet"@,
{
    proof {
        reveal_strlit(".parquet");
    }
    let n: usize = sorted_path.unicode_len();
    let mut stem: String = sorted_path.to_owned();
    if n >= 8 {
        let tail = sorted_path.substring_char(n - 8, n);
        let mut matches_suffix = true;
        let suffix = ".parquet";
        let mut i: usize = 0;
        while i < 8
            invariant
                0 <= i <= 8,
                n >= 8,
                n == sorted_path@.len(),
                tail@ == sorted_path@.subrange(n - 8, n as int),
                suffix@ == ".parquet"@,
                tail@.len() == 8,
                suffix@.len() == 8,
                matches_suffix == (forall|k: int| 0 <= k < i ==> tail@[k] == suffix@[k]),
            decreases 8 - i,
        {
            if tail.get_char(i) != suffix.get_char(i) {
                matches_suffix = false;
                proof {
                    assert(tail@[i as int] != suffix@[i as int]);
                }
            }
            i = i + 1;
        }
        if matches_suffix {
            proof {
                assert(tail@ =~= suffix@);
                assert(spec_ends_parquet(sorted_path@));
            }
            stem = sorted_path.substring_char(0, n - 8).to_owned();
        } else {
            proof {
                assert(!spec_ends_parquet(sorted_path@));
            }
        }
    }
    let mut r = stem;
    r.append("intermediate-");
    let digits = u64_to_string(index);
    r.append(digits.as_str());
    r.append(".parquet");
    r
}

} // verus!
