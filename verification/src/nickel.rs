//! Keeping Nickel (the Kobo UI) out of the way while koboterm runs: the
//! mode chosen on the command line. Freezing and thawing the processes is
//! the application's work.

use vstd::prelude::*;
use crate::text::{chars_eq, str_chars};

verus! {

/// `Pause` freezes the UI stack while koboterm runs; `Leave` does nothing.
#[derive(Clone, Copy, Debug, PartialEq, Eq, Structural)]
pub enum Mode {
    Pause,
    Leave,
}

impl Mode {
    /// `pause` is Pause; anything else is Leave.
    pub fn parse(s: &str) -> (m: Mode)
        ensures
            m == (if s@ == "pause"@ {
                Mode::Pause
            } else {
                Mode::Leave
            }),
    {
        let v = str_chars(s);
        let p = str_chars("pause");
        if chars_eq(v.as_slice(), p.as_slice()) {
            Mode::Pause
        } else {
            Mode::Leave
        }
    }
}

/// The mode the app's arguments ask for: the word after each `--nickel`
/// (empty at the end) sets it, the last one counts; Leave without any.
pub open spec fn nickel_mode_from(args: Seq<Seq<char>>, i: int, m: Mode) -> Mode
    decreases args.len() + 1 - i,
{
    if i < 0 || i >= args.len() {
        m
    } else if args[i] == "--nickel"@ {
        let next = if i + 1 < args.len() {
            args[i + 1]
        } else {
            seq![]
        };
        nickel_mode_from(args, i + 2, if next == "pause"@ {
            Mode::Pause
        } else {
            Mode::Leave
        })
    } else {
        nickel_mode_from(args, i + 1, m)
    }
}

pub fn nickel_mode(args: &Vec<String>) -> (m: Mode)
    ensures
        m == nickel_mode_from(crate::session::str_views(args@), 0, Mode::Leave),
{
    let ghost av = crate::session::str_views(args@);
    let flag = str_chars("--nickel");
    let mut m = Mode::Leave;
    let mut i: usize = 0;
    while i < args.len()
        invariant
            i <= args@.len(),
            av == crate::session::str_views(args@),
            flag@ == "--nickel"@,
            nickel_mode_from(av, i as int, m) == nickel_mode_from(av, 0, Mode::Leave),
        decreases args@.len() - i,
    {
        let a = str_chars(args[i].as_str());
        assert(a@ == av[i as int]);
        if chars_eq(a.as_slice(), flag.as_slice()) {
            proof {
                reveal_strlit("pause");
            }
            let ghost m0 = m;
            assert(av[i as int] == "--nickel"@);
            if i + 1 < args.len() {
                assert(av[i + 1] == args@[i + 1]@);
                m = Mode::parse(args[i + 1].as_str());
                assert(nickel_mode_from(av, i as int, m0) == nickel_mode_from(av, i + 2, m));
                i = i + 2;
            } else {
                m = Mode::Leave;
                assert(seq!['p', 'a', 'u', 's', 'e'] =~= "pause"@);
                assert(nickel_mode_from(av, i as int, m0) == nickel_mode_from(av, i + 2, m));
                assert(nickel_mode_from(av, i + 2, m) == m);
                i = args.len();
                assert(nickel_mode_from(av, i as int, m) == m);
            }
        } else {
            assert(av[i as int] != "--nickel"@);
            i = i + 1;
        }
    }
    m
}

} // verus!
