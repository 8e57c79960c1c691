# btc-regime

Measures whether Bitcoin trades like a tech asset (correlated with the Nasdaq)
or like a safe haven (correlated with gold), and reads leverage on the BTC/ETH
perpetual futures markets.

- `src/` is the verified library: calendar days (`day`), inner join and
  de-duplication of dated price series (`series`), daily series built from the
  feeds' payloads (`data`), sliding-window bookkeeping (`correlation`,
  `regime`), and the decision rules for crossovers (`report`), leverage
  (`pulse`) and lending spreads (`onchain`). Prices and correlations never
  enter it as numbers: the series functions are generic in the value they
  carry, and the decisions take where a reading stands against its threshold.
- `app/` is the command-line program: HTTP requests, JSON decoding, the
  floating-point arithmetic (log returns, Pearson correlation, rates), and the
  terminal report.
