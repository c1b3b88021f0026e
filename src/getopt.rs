use vstd::prelude::*;

verus! {

/// An argument that starts with `-` names a flag; any other is a value.
pub open spec fn is_flag(a: Seq<char>) -> bool {
    a.len() > 0 && a[0] == '-'
}

/// Reads flags and values in order: each flag takes the value that follows
/// it, if any. Gives the pairs read and the flag still waiting for a value,
/// or the first value that follows no flag.
pub open spec fn scan_args(args: Seq<Seq<char>>) -> Result<
    (Seq<(Seq<char>, Option<Seq<char>>)>, Option<Seq<char>>),
    Seq<char>,
>
    decreases args.len(),
{
    if args.len() == 0 {
        Ok((seq![], None))
    } else {
        match scan_args(args.drop_last()) {
            Err(e) => Err(e),
            Ok((ps, cur)) => {
                let a = args.last();
                match cur {
                    None => if is_flag(a) {
                        Ok((ps, Some(a.drop_first())))
                    } else {
                        Err(a)
                    },
                    Some(f) => if is_flag(a) {
                        Ok((ps.push((f, None)), Some(a.drop_first())))
                    } else {
                        Ok((ps.push((f, Some(a))), None))
                    },
                }
            },
        }
    }
}

/// The flag and value pairs of an argument list, a last flag without a
/// value included; or the first value that follows no flag.
pub open spec fn options_of(args: Seq<Seq<char>>) -> Result<
    Seq<(Seq<char>, Option<Seq<char>>)>,
    Seq<char>,
> {
    match scan_args(args) {
        Err(e) => Err(e),
        Ok((ps, None)) => Ok(ps),
        Ok((ps, Some(f))) => Ok(ps.push((f, None))),
    }
}

/// What the last pair for flag `k` gives it, if any pair does.
pub open spec fn lookup_last(ps: Seq<(Seq<char>, Option<Seq<char>>)>, k: Seq<char>) -> Option<
    Option<Seq<char>>,
>
    decreases ps.len(),
{
    if ps.len() == 0 {
        None
    } else if ps.last().0 == k {
        Some(ps.last().1)
    } else {
        lookup_last(ps.drop_last(), k)
    }
}

pub open spec fn opt_view(o: Option<String>) -> Option<Seq<char>> {
    match o {
        Some(s) => Some(s@),
        None => None,
    }
}

/// An argument that follows no flag.
#[derive(Debug, Clone)]
pub struct GetOptError {
    invalid_arg: String,
}

impl GetOptError {
    pub closed spec fn view(&self) -> Seq<char> {
        self.invalid_arg@
    }

    /// The offending argument.
    pub fn invalid_arg(&self) -> (r: &str)
        ensures
            r@ == self@,
    {
        self.invalid_arg.as_str()
    }
}

/// Flags read from an argument list, each with its value if it had one.
#[derive(Debug, Clone)]
pub struct ArgMap {
    pairs: Vec<(String, Option<String>)>,
}

impl ArgMap {
    /// The pairs in the order they were read.
    pub closed spec fn view(&self) -> Seq<(Seq<char>, Option<Seq<char>>)> {
        self.pairs@.map_values(|p: (String, Option<String>)| (p.0@, opt_view(p.1)))
    }

    /// The value given to flag `k`: none if the flag is absent, `Some(None)`
    /// if it had no value; a later occurrence of a flag overrides an earlier.
    pub fn get(&self, k: &str) -> (r: Option<Option<&str>>)
        ensures
            lookup_last(self@, k@) == match r {
                None => None,
                Some(None) => Some(None),
                Some(Some(v)) => Some(Some(v@)),
            },
    {
        let key = String::from_str(k);
        let mut i = self.pairs.len();
        assert(self@.take(i as int) == self@);
        while i > 0
            invariant
                i <= self.pairs@.len(),
                key@ == k@,
                lookup_last(self@, k@) == lookup_last(self@.take(i as int), k@),
            decreases i,
        {
            assert(self@.take(i as int).drop_last() == self@.take(i - 1));
            assert(self@.take(i as int).last() == self@[i - 1]);
            assert(self@[i - 1] == (self.pairs@[i - 1].0@, opt_view(self.pairs@[i - 1].1)));
            if self.pairs[i - 1].0 == key {
                return match &self.pairs[i - 1].1 {
                    None => Some(None),
                    Some(v) => Some(Some(v.as_str())),
                };
            }
            i = i - 1;
        }
        None
    }
}

/// Reads flags (`-name`) and their values from an argument list, program name excluded.
pub fn parse_args(args: &Vec<String>) -> (r: Result<ArgMap, GetOptError>)
    ensures
        match r {
            Ok(m) => options_of(args@.map_values(|a: String| a@)) == Ok::<
                Seq<(Seq<char>, Option<Seq<char>>)>,
                Seq<char>,
            >(m@),
            Err(e) => options_of(args@.map_values(|a: String| a@)) == Err::<
                Seq<(Seq<char>, Option<Seq<char>>)>,
                Seq<char>,
            >(e@),
        },
{
    let ghost all = args@.map_values(|a: String| a@);
    let mut out = ArgMap { pairs: Vec::new() };
    let mut cur: Option<String> = None;
    let mut i: usize = 0;
    assert(out@ == Seq::<(Seq<char>, Option<Seq<char>>)>::empty());
    assert(all.take(0) == Seq::<Seq<char>>::empty());
    while i < args.len()
        invariant
            all == args@.map_values(|a: String| a@),
            i <= args@.len(),
            scan_args(all.take(i as int)) == Ok::<
                (Seq<(Seq<char>, Option<Seq<char>>)>, Option<Seq<char>>),
                Seq<char>,
            >((out@, opt_view(cur))),
        decreases args@.len() - i,
    {
        let a = args[i].as_str();
        let n = a.unicode_len();
        let flag = n > 0 && a.get_char(0) == '-';
        proof {
            assert(all.take(i + 1).drop_last() == all.take(i as int));
            assert(all.take(i + 1).last() == a@);
        }
        let ghost before = out.pairs@;
        let ghost before_view = out@;
        proof {
            if n > 0 {
                assert(a@[0] == a@[0]);
            }
            assert(flag == is_flag(a@));
            if n > 0 {
                assert(a@.subrange(1, n as int) == a@.drop_first());
            }
        }
        match cur {
            None => {
                if flag {
                    cur = Some(String::from_str(a.substring_char(1, n)));
                } else {
                    proof {
                        lemma_scan_err_prefix(all, i + 1);
                    }
                    return Err(GetOptError { invalid_arg: String::from_str(a) });
                }
            },
            Some(f) => {
                let ghost fv = f@;
                if flag {
                    out.pairs.push((f, None));
                    cur = Some(String::from_str(a.substring_char(1, n)));
                    assert(out.pairs@.drop_last() == before);
                    assert(out@ == before_view.push((fv, None)));
                } else {
                    out.pairs.push((f, Some(String::from_str(a))));
                    cur = None;
                    assert(out.pairs@.drop_last() == before);
                    assert(out@ == before_view.push((fv, Some(a@))));
                }
            },
        }
        assert(scan_args(all.take(i + 1)) == Ok::<
            (Seq<(Seq<char>, Option<Seq<char>>)>, Option<Seq<char>>),
            Seq<char>,
        >((out@, opt_view(cur))));
        i = i + 1;
    }
    assert(all.take(i as int) == all);
    match cur {
        Some(f) => {
            let ghost before = out.pairs@;
            let ghost before_view = out@;
            out.pairs.push((f, None));
            assert(out.pairs@.drop_last() == before);
            assert(out@ == before_view.push((f@, None)));
        },
        None => {},
    }
    Ok(out)
}

proof fn lemma_scan_err_prefix(args: Seq<Seq<char>>, n: int)
    requires
        0 <= n <= args.len(),
        scan_args(args.take(n)) is Err,
    ensures
        scan_args(args) == scan_args(args.take(n)),
    decreases args.len() - n,
{
    if n < args.len() {
        assert(args.take(n + 1).drop_last() == args.take(n));
        lemma_scan_err_prefix(args, n + 1);
    } else {
        assert(args.take(n) == args);
    }
}

} // verus!
