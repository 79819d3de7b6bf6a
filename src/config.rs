use vstd::prelude::*;

use crate::text::chars_of;

verus! {

/// Why the arguments could not be read into a [`Config`].
#[derive(Debug, Clone, Copy, PartialEq, Eq, Structural)]
pub enum ConfigError {
    /// No argument was left for the query.
    MissingQuery,
    /// No argument was left for the file path.
    MissingFilePath,
}

impl ConfigError {
    /// A one-line description for the user.
    pub fn message(&self) -> (r: &'static str)
        ensures
            *self == ConfigError::MissingQuery ==> r@ == "Didn't get a query string"@,
            *self == ConfigError::MissingFilePath ==> r@ == "Didn't get a file path"@,
    {
        match self {
            ConfigError::MissingQuery => "Didn't get a query string",
            ConfigError::MissingFilePath => "Didn't get a file path",
        }
    }
}

/// What one search is asked to do.
pub struct Config {
    pub query: String,
    pub file_path: String,
    pub ignore_case: bool,
}

/// The argument that asks for a case-insensitive search.
pub open spec fn is_flag(arg: Seq<char>) -> bool {
    arg == seq!['-', 'i']
}

/// The text of each argument.
pub open spec fn arg_views(args: Seq<String>) -> Seq<Seq<char>> {
    args.map_values(|a: String| a@)
}

/// The arguments after the program name.
pub open spec fn trailing(args: Seq<Seq<char>>) -> Seq<Seq<char>> {
    if args.len() == 0 {
        args
    } else {
        args.drop_first()
    }
}

/// The arguments after the program name that are not the flag, in order.
pub open spec fn positional(args: Seq<Seq<char>>) -> Seq<Seq<char>> {
    trailing(args).filter(|a: Seq<char>| !is_flag(a))
}

/// The flag stands somewhere after the program name.
pub open spec fn flag_given(args: Seq<Seq<char>>) -> bool {
    trailing(args).contains(seq!['-', 'i'])
}

fn is_flag_arg(arg: &String) -> (r: bool)
    ensures
        r == is_flag(arg@),
{
    let c = chars_of(arg.as_str());
    let r = c.len() == 2 && c[0] == '-' && c[1] == 'i';
    if r {
        assert(c@ =~= seq!['-', 'i']);
    }
    r
}

impl Config {
    /// Reads `args`, whose first element is the program name. Every later
    /// `-i` asks for a case-insensitive search and is set aside; of the
    /// other arguments the first is the query and the second the file path,
    /// and any further ones are ignored. `env_ignore_case` asks for a
    /// case-insensitive search as well.
    pub fn build(args: Vec<String>, env_ignore_case: bool) -> (r: Result<Config, ConfigError>)
        ensures
            positional(arg_views(args@)).len() == 0 <==> r == Err::<Config, ConfigError>(
                ConfigError::MissingQuery,
            ),
            positional(arg_views(args@)).len() == 1 <==> r == Err::<Config, ConfigError>(
                ConfigError::MissingFilePath,
            ),
            positional(arg_views(args@)).len() >= 2 <==> r is Ok,
            r matches Ok(c) ==> {
                &&& c.query@ == positional(arg_views(args@))[0]
                &&& c.file_path@ == positional(arg_views(args@))[1]
                &&& c.ignore_case == (flag_given(arg_views(args@)) || env_ignore_case)
            },
    {
        let ghost views = arg_views(args@);
        let ghost rest = trailing(views);
        let ghost keep = |a: Seq<char>| !is_flag(a);
        let mut kept: Vec<String> = Vec::new();
        let mut flag = false;
        if args.len() > 0 {
            let mut i: usize = 1;
            assert(rest.subrange(0, 0).filter(keep) =~= Seq::<Seq<char>>::empty()) by {
                reveal(Seq::filter);
            }
            while i < args.len()
                invariant
                    views == arg_views(args@),
                    rest == trailing(views),
                    keep == (|a: Seq<char>| !is_flag(a)),
                    1 <= i <= args@.len(),
                    arg_views(kept@) == rest.subrange(0, i - 1).filter(keep),
                    flag == rest.subrange(0, i - 1).contains(seq!['-', 'i']),
                decreases args@.len() - i,
            {
                let ghost before = rest.subrange(0, i - 1);
                let ghost now = rest.subrange(0, i as int);
                assert(now.drop_last() =~= before);
                assert(rest[i - 1] == args@[i as int]@);
                assert(now.filter(keep) == if keep(now.last()) {
                    before.filter(keep).push(now.last())
                } else {
                    before.filter(keep)
                }) by {
                    reveal(Seq::filter);
                }
                if is_flag_arg(&args[i]) {
                    flag = true;
                    assert(now.contains(seq!['-', 'i'])) by {
                        assert(now[i - 1] == seq!['-', 'i']);
                    }
                } else {
                    let a = args[i].clone();
                    assert(arg_views(kept@.push(a)) =~= arg_views(kept@).push(a@));
                    kept.push(a);
                    assert(now.contains(seq!['-', 'i']) == before.contains(seq!['-', 'i'])) by {
                        if now.contains(seq!['-', 'i']) {
                            let j = choose|j: int| 0 <= j < now.len() && now[j] == seq!['-', 'i'];
                            if j < i - 1 {
                                assert(before[j] == now[j]);
                            }
                        }
                    }
                }
                i = i + 1;
            }
            assert(rest.subrange(0, i - 1) =~= rest);
        } else {
            assert(rest.filter(keep) =~= Seq::<Seq<char>>::empty()) by {
                reveal(Seq::filter);
            }
        }
        if kept.len() == 0 {
            return Err(ConfigError::MissingQuery);
        }
        if kept.len() == 1 {
            return Err(ConfigError::MissingFilePath);
        }
        let file_path = kept.remove(1);
        let query = kept.remove(0);
        Ok(Config { query, file_path, ignore_case: flag || env_ignore_case })
    }
}

} // verus!
