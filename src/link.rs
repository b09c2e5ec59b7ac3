//! A physical path of a stream: the local address packets leave from and
//! the peer address they go to.

use vstd::prelude::*;

verus! {

#[derive(Clone, Debug)]
pub struct Link {
    pub tx_ipaddr: String,
    pub rx_ipaddr: String,
}

impl Link {
    pub fn new(tx_ipaddr: String, rx_ipaddr: String) -> (r: Self)
        ensures
            r.tx_ipaddr@ == tx_ipaddr@,
            r.rx_ipaddr@ == rx_ipaddr@,
    {
        Link { tx_ipaddr, rx_ipaddr }
    }
}

} // verus!
