//! Which counts a run reports, chosen by the option word.
use vstd::prelude::*;

verus! {

/// The counts that a run reports.
#[derive(Clone, Copy, Debug, PartialEq, Eq, Structural)]
pub enum Mode {
    /// Bytes alone (`-c`).
    Bytes,
    /// Lines alone (`-l`).
    Lines,
    /// Words alone (`-w`).
    Words,
    /// Characters alone (`-m`).
    Characters,
    /// Lines, words and bytes (`default`, the word given when no option is).
    All,
}

/// The mode that the option word `o` selects, if any: `-c`, `-l`, `-w`, `-m`
/// or `default`, as ASCII bytes.
pub open spec fn mode_of(o: Seq<u8>) -> Option<Mode> {
    if o == seq![45u8, 99u8] {
        Some(Mode::Bytes)
    } else if o == seq![45u8, 108u8] {
        Some(Mode::Lines)
    } else if o == seq![45u8, 119u8] {
        Some(Mode::Words)
    } else if o == seq![45u8, 109u8] {
        Some(Mode::Characters)
    } else if o == seq![100u8, 101u8, 102u8, 97u8, 117u8, 108u8, 116u8] {
        Some(Mode::All)
    } else {
        None
    }
}

/// Reads the option word; `None` for a word that selects no mode.
pub fn parse_mode(option: &[u8]) -> (r: Option<Mode>)
    ensures
        r == mode_of(option@),
{
    let o = option;
    if o.len() == 2 && o[0] == 45u8 {
        let r = if o[1] == 99u8 {
            Some(Mode::Bytes)
        } else if o[1] == 108u8 {
            Some(Mode::Lines)
        } else if o[1] == 119u8 {
            Some(Mode::Words)
        } else if o[1] == 109u8 {
            Some(Mode::Characters)
        } else {
            None
        };
        assert(o@ =~= seq![45u8, o@[1]]);
        return r;
    }
    if o.len() == 7 && o[0] == 100u8 && o[1] == 101u8 && o[2] == 102u8 && o[3] == 97u8 && o[4] == 117u8
        && o[5] == 108u8 && o[6] == 116u8 {
        assert(o@ =~= seq![100u8, 101u8, 102u8, 97u8, 117u8, 108u8, 116u8]);
        return Some(Mode::All);
    }
    proof {
        if o@.len() == 2 {
            assert(o@[0] != 45u8 ==> o@ != seq![45u8, 99u8] && o@ != seq![45u8, 108u8] && o@
                != seq![45u8, 119u8] && o@ != seq![45u8, 109u8]);
        }
        if o@.len() == 7 {
            let d = seq![100u8, 101u8, 102u8, 97u8, 117u8, 108u8, 116u8];
            assert(o@ != d) by {
                if o@ == d {
                    assert(o@[0] == d[0] && o@[1] == d[1] && o@[2] == d[2] && o@[3] == d[3]
                        && o@[4] == d[4] && o@[5] == d[5] && o@[6] == d[6]);
                }
            }
        }
    }
    None
}

} // verus!
