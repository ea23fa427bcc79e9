use vstd::prelude::*;
use crate::bpp::Bpp;

verus! {

/// What a run is asked to do: the file or directory to convert, and its format.
pub struct Config {
    file: String,
    format: Bpp,
}

impl Config {
    /// The path to convert.
    pub closed spec fn file_view(&self) -> Seq<char> {
        self.file@
    }

    /// The tile format.
    pub closed spec fn format_view(&self) -> Bpp {
        self.format
    }

    /// Reads the arguments of a command line: exactly the program name, a path
    /// and a format.
    pub fn build(args: &[String]) -> (r: Result<Config, &'static str>)
        ensures
            r is Ok <==> args@.len() == 3 && Bpp::parsed(args@[2]@) is Some,
            r is Ok ==> r->Ok_0.file_view() == args@[1]@ && Bpp::parsed(args@[2]@) == Some(
                r->Ok_0.format_view(),
            ),
    {
        if args.len() != 3 {
            return Err("expected exactly a file and a format argument");
        }
        let file = args[1].clone();
        let format = match Bpp::new(args[2].clone()) {
            Ok(f) => f,
            Err(e) => {
                return Err(e);
            },
        };
        Ok(Config { file, format })
    }

    /// The path to convert.
    pub fn file(&self) -> (r: &str)
        ensures
            r@ == self.file_view(),
    {
        self.file.as_str()
    }

    /// The tile format.
    pub fn format(&self) -> (r: Bpp)
        ensures
            r == self.format_view(),
    {
        self.format
    }
}

} // verus!
