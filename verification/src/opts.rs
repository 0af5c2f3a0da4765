//! Server options parsed from an options file or from command-line words.
//! Reading the file, and the argument list itself, are the caller's I/O; the
//! parsing here is pure text.
use vstd::prelude::*;
use vstd::string::StrSliceExecFns;

use crate::error::OptsError;
use crate::strutil::all_digits;
use crate::strutil::dec_val;
use crate::strutil::extract;
use crate::strutil::parse_dec_u32;
use crate::strutil::split_on;
use crate::strutil::split_string;
use crate::strutil::str_eq;

verus! {

/// The ghost shape of the options.
pub struct OptsModel {
    pub port: u32,
    pub qrcode: bool,
    pub static_dir: Seq<char>,
    pub room_name: Seq<char>,
}

/// What the server runs with: the port, whether to print the QR banner, where
/// static files live, and the room name.
#[derive(Debug, PartialEq, Eq)]
pub struct SmollChatOpts {
    pub port: u32,
    pub qrcode: bool,
    pub static_dir: String,
    pub room_name: String,
}

impl View for SmollChatOpts {
    type V = OptsModel;

    open spec fn view(&self) -> OptsModel {
        OptsModel {
            port: self.port,
            qrcode: self.qrcode,
            static_dir: self.static_dir@,
            room_name: self.room_name@,
        }
    }
}

/// The defaults: port 8080, no QR banner, static files beside the working
/// directory, room name "Room".
pub open spec fn default_opts() -> OptsModel {
    OptsModel { port: 8080, qrcode: false, static_dir: "."@, room_name: "Room"@ }
}

/// A port value: digits that fit a `u32`.
pub open spec fn valid_port(v: Seq<char>) -> bool {
    v.len() >= 1 && all_digits(v) && dec_val(v) <= u32::MAX
}

/// One options-file line applied to `o`. The name stands before the first
/// `=`, the value between the first `=` and the second or the end. An unknown
/// name is skipped; a recognized name with a missing or unparsable value is
/// an error.
pub open spec fn apply_env_line(o: OptsModel, line: Seq<char>) -> Option<OptsModel> {
    let ps = split_on(line, seq!['=']);
    if ps[0] == "port"@ {
        if ps.len() >= 2 && valid_port(ps[1]) {
            Some(OptsModel { port: dec_val(ps[1]) as u32, ..o })
        } else {
            None
        }
    } else if ps[0] == "qrcode"@ {
        if ps.len() >= 2 && (ps[1] == "true"@ || ps[1] == "false"@) {
            Some(OptsModel { qrcode: ps[1] == "true"@, ..o })
        } else {
            None
        }
    } else if ps[0] == "static-dir"@ {
        if ps.len() >= 2 {
            Some(OptsModel { static_dir: ps[1], ..o })
        } else {
            None
        }
    } else if ps[0] == "room-name"@ {
        if ps.len() >= 2 {
            Some(OptsModel { room_name: ps[1], ..o })
        } else {
            None
        }
    } else {
        Some(o)
    }
}

/// The options-file lines folded over `o`, first line first.
pub open spec fn env_fold(o: OptsModel, lines: Seq<Seq<char>>) -> Option<OptsModel>
    decreases lines.len(),
{
    if lines.len() == 0 {
        Some(o)
    } else {
        match apply_env_line(o, lines[0]) {
            None => None,
            Some(o2) => env_fold(o2, lines.drop_first()),
        }
    }
}

/// The command-line words folded over `o`: a recognized option name consumes
/// the next word as its value (an error when it is missing or unparsable),
/// any other word is skipped.
pub open spec fn args_fold(o: OptsModel, args: Seq<Seq<char>>) -> Option<OptsModel>
    decreases args.len(),
{
    if args.len() == 0 {
        Some(o)
    } else {
        let a = args[0];
        if a == "--port"@ || a == "-p"@ {
            if args.len() >= 2 && valid_port(args[1]) {
                args_fold(OptsModel { port: dec_val(args[1]) as u32, ..o }, args.skip(2))
            } else {
                None
            }
        } else if a == "--qrcode"@ {
            if args.len() >= 2 && (args[1] == "true"@ || args[1] == "false"@) {
                args_fold(OptsModel { qrcode: args[1] == "true"@, ..o }, args.skip(2))
            } else {
                None
            }
        } else if a == "--static-dir"@ {
            if args.len() >= 2 {
                args_fold(OptsModel { static_dir: args[1], ..o }, args.skip(2))
            } else {
                None
            }
        } else if a == "--room-name"@ {
            if args.len() >= 2 {
                args_fold(OptsModel { room_name: args[1], ..o }, args.skip(2))
            } else {
                None
            }
        } else {
            args_fold(o, args.skip(1))
        }
    }
}

/// `l` without one trailing carriage return.
pub open spec fn strip_cr(l: Seq<char>) -> Seq<char> {
    if l.len() > 0 && l.last() == '\r' {
        l.drop_last()
    } else {
        l
    }
}

/// The lines of an options file: split on `\n`, one trailing empty piece
/// dropped, a trailing `\r` stripped from each line.
pub open spec fn env_lines(buf: Seq<char>) -> Seq<Seq<char>> {
    let ps = split_on(buf, seq!['\n']);
    let kept = if ps.len() >= 1 && ps.last().len() == 0 {
        ps.drop_last()
    } else {
        ps
    };
    kept.map_values(|l: Seq<char>| strip_cr(l))
}

/// Split an options file into its lines.
fn split_lines(buf: &str) -> (lines: Vec<String>)
    ensures
        lines.deep_view() == env_lines(buf@),
{
    proof {
        reveal_strlit("\n");
        assert("\n"@ =~= seq!['\n']);
    }
    let mut ps = split_string(buf, "\n");
    proof {
        assert(split_on(buf@, seq!['\n']).len() >= 1);
    }
    proof {
        assert(ps@.len() == ps.deep_view().len());
    }
    let plen = ps.len();
    let ghost whole = ps.deep_view();
    if ps[plen - 1].as_str().is_empty() {
        let _ = ps.pop();
        proof {
            assert(ps.deep_view() =~= whole.drop_last());
        }
    }
    let ghost kept = ps.deep_view();
    let n = ps.len();
    let mut out: Vec<String> = Vec::new();
    let mut i: usize = 0;
    while i < n
        invariant
            i <= n,
            n == ps@.len(),
            kept == ps.deep_view(),
            out@.len() == i,
            forall|j: int| 0 <= j < i ==> out.deep_view()[j] == strip_cr(#[trigger] kept[j]),
        decreases n - i,
    {
        let l = &ps[i];
        let ll = l.as_str().unicode_len();
        if ll > 0 && l.as_str().get_char(ll - 1) == '\r' {
            proof {
                assert(kept[i as int].last() == l@[ll - 1]);
                assert(l@.subrange(0, ll - 1) =~= kept[i as int].drop_last());
            }
            out.push(extract(l.as_str(), 0, ll - 1));
        } else {
            out.push(l.clone());
        }
        i = i + 1;
    }
    proof {
        assert(out.deep_view() =~= env_lines(buf@));
    }
    out
}

impl SmollChatOpts {
    /// The default options.
    pub fn default() -> (r: Self)
        ensures
            r@ == default_opts(),
    {
        SmollChatOpts {
            port: 8080,
            qrcode: false,
            static_dir: ".".to_owned(),
            room_name: "Room".to_owned(),
        }
    }

    /// Parse the text of a `.env`-style options file, starting from the
    /// defaults. Unknown names are skipped; a recognized name with a bad
    /// value is refused.
    pub fn parse_env(buf: &str) -> (r: Result<Self, OptsError>)
        ensures
            match r {
                Ok(o) => env_fold(default_opts(), env_lines(buf@)) == Some(o@),
                Err(_) => env_fold(default_opts(), env_lines(buf@)) is None,
            },
    {
        let lines = split_lines(buf);
        let ghost ls = env_lines(buf@);
        let mut o = Self::default();
        let n = lines.len();
        let mut i: usize = 0;
        proof {
            assert(ls.skip(0) =~= ls);
        }
        while i < n
            invariant
                i <= n,
                n == lines@.len(),
                ls == lines.deep_view(),
                ls == env_lines(buf@),
                env_fold(default_opts(), ls) == env_fold(o@, ls.skip(i as int)),
            decreases n - i,
        {
            proof {
                reveal_strlit("=");
                assert("="@ =~= seq!['=']);
                assert(ls.skip(i as int)[0] == ls[i as int]);
                assert(ls.skip(i as int).drop_first() =~= ls.skip(i + 1));
                assert(ls[i as int] == lines.deep_view()[i as int]);
            }
            let line = &lines[i];
            let ps = split_string(line.as_str(), "=");
            proof {
                assert(split_on(line@, seq!['=']).len() >= 1);
                assert(ps@.len() == ps.deep_view().len());
            }
            let ghost obefore = o@;
            let key = &ps[0];
            proof {
                assert(ps.deep_view()[0] == key@);
            }
            if str_eq(key.as_str(), "port") {
                if ps.len() < 2 {
                    return Err(OptsError);
                }
                proof {
                    assert(ps.deep_view()[1] == ps@[1]@);
                }
                match parse_dec_u32(ps[1].as_str()) {
                    Some(p) => {
                        o.port = p;
                    },
                    None => {
                        return Err(OptsError);
                    },
                }
            } else if str_eq(key.as_str(), "qrcode") {
                if ps.len() < 2 {
                    return Err(OptsError);
                }
                proof {
                    assert(ps.deep_view()[1] == ps@[1]@);
                }
                if str_eq(ps[1].as_str(), "true") {
                    o.qrcode = true;
                } else if str_eq(ps[1].as_str(), "false") {
                    o.qrcode = false;
                } else {
                    return Err(OptsError);
                }
            } else if str_eq(key.as_str(), "static-dir") {
                if ps.len() < 2 {
                    return Err(OptsError);
                }
                proof {
                    assert(ps.deep_view()[1] == ps@[1]@);
                }
                o.static_dir = ps[1].clone();
            } else if str_eq(key.as_str(), "room-name") {
                if ps.len() < 2 {
                    return Err(OptsError);
                }
                proof {
                    assert(ps.deep_view()[1] == ps@[1]@);
                }
                o.room_name = ps[1].clone();
            }
            proof {
                assert(apply_env_line(obefore, ls[i as int]) == Some(o@));
            }
            i = i + 1;
        }
        proof {
            assert(ls.skip(n as int) =~= Seq::<Seq<char>>::empty());
        }
        Ok(o)
    }

    /// Parse command-line words, starting from the defaults. Unrecognized
    /// words (the program name among them) are skipped.
    pub fn parse_args(args: &Vec<String>) -> (r: Result<Self, OptsError>)
        ensures
            match r {
                Ok(o) => args_fold(default_opts(), args.deep_view()) == Some(o@),
                Err(_) => args_fold(default_opts(), args.deep_view()) is None,
            },
    {
        let ghost av = args.deep_view();
        let mut o = Self::default();
        let n = args.len();
        let mut i: usize = 0;
        proof {
            assert(av.skip(0) =~= av);
        }
        while i < n
            invariant
                i <= n,
                n == args@.len(),
                av == args.deep_view(),
                args_fold(default_opts(), av) == args_fold(o@, av.skip(i as int)),
            decreases n - i,
        {
            proof {
                assert(av.skip(i as int)[0] == av[i as int]);
                assert(av.skip(i as int).skip(1) =~= av.skip(i + 1));
                assert(av[i as int] == args.deep_view()[i as int]);
            }
            let a = &args[i];
            let named = if str_eq(a.as_str(), "--port") || str_eq(a.as_str(), "-p") {
                1u8
            } else if str_eq(a.as_str(), "--qrcode") {
                2u8
            } else if str_eq(a.as_str(), "--static-dir") {
                3u8
            } else if str_eq(a.as_str(), "--room-name") {
                4u8
            } else {
                0u8
            };
            if named == 0 {
                i = i + 1;
            } else {
                if i + 1 >= n {
                    return Err(OptsError);
                }
                proof {
                    assert(av.skip(i as int).skip(2) =~= av.skip(i + 2));
                    assert(av.skip(i as int)[1] == av[i + 1]);
                    assert(av[i + 1] == args.deep_view()[i + 1]);
                }
                let v = &args[i + 1];
                if named == 1 {
                    match parse_dec_u32(v.as_str()) {
                        Some(p) => {
                            o.port = p;
                        },
                        None => {
                            return Err(OptsError);
                        },
                    }
                } else if named == 2 {
                    if str_eq(v.as_str(), "true") {
                        o.qrcode = true;
                    } else if str_eq(v.as_str(), "false") {
                        o.qrcode = false;
                    } else {
                        return Err(OptsError);
                    }
                } else if named == 3 {
                    o.static_dir = v.clone();
                } else {
                    o.room_name = v.clone();
                }
                i = i + 2;
            }
        }
        proof {
            assert(av.skip(n as int) =~= Seq::<Seq<char>>::empty());
        }
        Ok(o)
    }
}

} // verus!
