//! The data-fetching decisions of a page, from the names its module
//! exports (the parse that finds the names is done by the caller).
use vstd::prelude::*;
use crate::text;
use crate::manifest::DataStrategy;

verus! {

/// The error of a page that exports both data functions.
pub open spec fn both_data_functions_message() -> Seq<char> {
    "Page exports both getStaticProps and getServerSideProps"@
}

/// The data strategy of a page from its export names: both
/// `getStaticProps` and `getServerSideProps` is an error; otherwise the one
/// exported, or none.
pub fn data_strategy_from_exports(exports: &Vec<String>) -> (r: Result<DataStrategy, String>)
    ensures
        ({
            let gssp = text::views(exports@).contains("getServerSideProps"@);
            let gsp = text::views(exports@).contains("getStaticProps"@);
            &&& r is Err <==> (gssp && gsp)
            &&& r matches Err(e) ==> e@ == both_data_functions_message()
            &&& r matches Ok(d) ==> d == (if gsp {
                DataStrategy::GetStaticProps
            } else if gssp {
                DataStrategy::GetServerSideProps
            } else {
                DataStrategy::NoData
            })
        }),
{
    let gssp = text::contains_string(exports, "getServerSideProps");
    let gsp = text::contains_string(exports, "getStaticProps");
    if gssp && gsp {
        return Err(String::from_str("Page exports both getStaticProps and getServerSideProps"));
    }
    if gsp {
        Ok(DataStrategy::GetStaticProps)
    } else if gssp {
        Ok(DataStrategy::GetServerSideProps)
    } else {
        Ok(DataStrategy::NoData)
    }
}

/// Whether a page exports `getStaticPaths`.
pub fn has_static_paths_from_exports(exports: &Vec<String>) -> (r: bool)
    ensures
        r == text::views(exports@).contains("getStaticPaths"@),
{
    text::contains_string(exports, "getStaticPaths")
}

} // verus!
